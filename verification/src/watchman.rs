//! What the watcher that talks to Watchman decides: which backend to use, which
//! paths are subscribed to, and what a message of a subscription amounts to.
use crate::monitor::FsEvent;
use crate::path::{
    fits, join, law_join_starts_with, law_starts_with_reflexive, same_path, starts_with, FilePath,
    PathView,
};
use crate::path_set::{
    contains_path, distinct_paths, law_insert_path, lemma_remove_distinct, path_views,
};
use vstd::prelude::*;

verus! {

/// Who reports changes in the file system.
#[derive(Clone, Copy, Debug, PartialEq, Eq, Structural)]
pub enum Backend {
    /// The facility of the operating system.
    Notify,
    /// A Watchman server.
    Watchman,
}

impl Backend {
    /// Watchman where it can be had, and the operating system elsewhere.
    pub fn from_watchman_availability(is_available: bool) -> (r: Self)
        ensures
            is_available ==> r == Backend::Watchman,
            !is_available ==> r == Backend::Notify,
    {
        if is_available {
            Self::Watchman
        } else {
            Self::Notify
        }
    }
}

/// Changes that Watchman reports for a subscription.
#[derive(Debug)]
pub struct ChangeBatch {
    /// Watchman has lost track, so that anything may have changed.
    pub is_fresh_instance: bool,
    /// The changed files, relative to the watched path.
    pub files: Option<Vec<FilePath>>,
}

/// The paths that a report says have changed, if it says any.
pub open spec fn changed_paths(
    watched_path: PathView,
    result: ChangeBatch,
) -> Option<Seq<PathView>> {
    if result.is_fresh_instance {
        Some(seq![watched_path])
    } else {
        match result.files {
            Some(files) if files@.len() > 0 => Some(
                path_views(files@).map_values(|file: PathView| join(watched_path, file)),
            ),
            _ => None,
        }
    }
}

/// The event that a report amounts to. With a fresh instance the watched path
/// itself counts as changed; a report without files amounts to nothing.
pub fn watchman_event(watched_path: &FilePath, result: &ChangeBatch) -> (r: Option<FsEvent>)
    ensures
        r is Some <==> changed_paths(watched_path@, *result) is Some,
        r matches Some(event) ==> path_views(event.paths@) == changed_paths(
            watched_path@,
            *result,
        )->0,
{
    if result.is_fresh_instance {
        let mut paths: Vec<FilePath> = Vec::new();
        paths.push(watched_path.clone());
        assert(path_views(paths@) =~= seq![watched_path@]);
        return Some(FsEvent { paths });
    }
    match &result.files {
        Some(files) => {
            let mut paths: Vec<FilePath> = Vec::new();
            let ghost joined = path_views(files@).map_values(
                |file: PathView| join(watched_path@, file),
            );
            let mut i: usize = 0;
            assert(path_views(paths@) =~= joined.take(0));
            while i < files.len()
                invariant
                    joined == path_views(files@).map_values(
                        |file: PathView| join(watched_path@, file),
                    ),
                    i <= files@.len(),
                    path_views(paths@) == joined.take(i as int),
                decreases files.len() - i,
            {
                let ghost before = path_views(paths@);
                let path = watched_path.join(&files[i]);
                paths.push(path);
                assert(path_views(paths@) =~= before.push(path@));
                assert(joined.take(i + 1) =~= joined.take(i as int).push(joined[i as int]));
                i = i + 1;
            }
            assert(joined.take(i as int) =~= joined);
            if paths.len() == 0 {
                return None;
            }
            Some(FsEvent { paths })
        },
        None => None,
    }
}

/// Which paths a report says have changed: with a fresh instance the watched path
/// alone. Otherwise there is one path for each reported file, in its place, and
/// it is the file joined onto the watched path; no file is left out. Without
/// files there is no event.
pub proof fn law_changed_paths(watched_path: PathView, result: ChangeBatch)
    ensures
        result.is_fresh_instance ==> {
            &&& changed_paths(watched_path, result) is Some
            &&& (changed_paths(watched_path, result)->0).len() == 1
            &&& (changed_paths(watched_path, result)->0)[0] == watched_path
        },
        !result.is_fresh_instance ==> match result.files {
            None => changed_paths(watched_path, result) is None,
            Some(files) => {
                &&& changed_paths(watched_path, result) is Some <==> files@.len() > 0
                &&& files@.len() > 0 ==> (changed_paths(watched_path, result)->0).len()
                    == files@.len()
                &&& files@.len() > 0 ==> forall|i: int|
                    0 <= i < files@.len() ==> #[trigger] (changed_paths(
                        watched_path,
                        result,
                    )->0)[i] == join(watched_path, files@[i]@)
            },
        },
{
}

/// Files are reported relative to the watched path, so that what an event
/// names is the watched path or lies below it. This needs that they are read
/// there as they stand.
pub proof fn law_events_lie_below(watched_path: PathView, result: ChangeBatch)
    requires
        result.files matches Some(files) ==> forall|i: int|
            0 <= i < files@.len() ==> !(#[trigger] files@[i])@.has_root() && fits(
                watched_path,
                files@[i]@,
            ),
    ensures
        changed_paths(watched_path, result) matches Some(paths) ==> paths.len() > 0 && forall|
            i: int,
        |
            0 <= i < paths.len() ==> starts_with(#[trigger] paths[i], watched_path),
{
    if let Some(paths) = changed_paths(watched_path, result) {
        assert forall|i: int| 0 <= i < paths.len() implies starts_with(
            #[trigger] paths[i],
            watched_path,
        ) by {
            if result.is_fresh_instance {
                law_starts_with_reflexive(watched_path);
            } else {
                let files = result.files->0;
                assert(paths[i] == join(watched_path, files@[i]@));
                law_join_starts_with(watched_path, files@[i]@);
            }
        }
    }
}

/// A message of a subscription, or what takes its place.
#[derive(Debug)]
pub enum Notice {
    /// Files have changed.
    FilesChanged(ChangeBatch),
    /// A named state begins.
    StateEnter,
    /// A named state ends.
    StateLeave,
    /// Watchman has ended the subscription.
    Canceled,
    /// Watchman could not be heard.
    Failed,
}

/// What is passed on because of a message.
#[derive(Debug)]
pub enum Reaction {
    /// Nothing.
    Ignore,
    /// An event.
    Forward(FsEvent),
    /// That the subscription was ended.
    ReportCanceled,
    /// That Watchman could not be heard.
    ReportFailure,
}

/// What is passed on because of a message, with the paths of an event.
pub enum ReactionView {
    Ignore,
    Forward(Seq<PathView>),
    ReportCanceled,
    ReportFailure,
}

impl View for Reaction {
    type V = ReactionView;

    open spec fn view(&self) -> ReactionView {
        match self {
            Reaction::Ignore => ReactionView::Ignore,
            Reaction::Forward(event) => ReactionView::Forward(path_views(event.paths@)),
            Reaction::ReportCanceled => ReactionView::ReportCanceled,
            Reaction::ReportFailure => ReactionView::ReportFailure,
        }
    }
}

/// What to pass on because of a message: the event that a report amounts to,
/// and that the subscription was ended or Watchman could not be heard.
pub open spec fn reaction_to(watched_path: PathView, notice: Notice) -> ReactionView {
    match notice {
        Notice::FilesChanged(result) => match changed_paths(watched_path, result) {
            Some(paths) => ReactionView::Forward(paths),
            None => ReactionView::Ignore,
        },
        Notice::StateEnter => ReactionView::Ignore,
        Notice::StateLeave => ReactionView::Ignore,
        Notice::Canceled => ReactionView::ReportCanceled,
        Notice::Failed => ReactionView::ReportFailure,
    }
}

/// Whether the subscription goes on after a reaction; `delivered` says whether
/// somebody took what was passed on.
pub open spec fn continues(reaction: ReactionView, delivered: bool) -> bool {
    match reaction {
        ReactionView::Ignore => true,
        ReactionView::Forward(_) => delivered,
        ReactionView::ReportCanceled => false,
        ReactionView::ReportFailure => false,
    }
}

/// Says what to pass on because of a message.
pub fn react(watched_path: &FilePath, notice: &Notice) -> (r: Reaction)
    ensures
        r@ == reaction_to(watched_path@, *notice),
{
    match notice {
        Notice::FilesChanged(result) => match watchman_event(watched_path, result) {
            Some(event) => Reaction::Forward(event),
            None => Reaction::Ignore,
        },
        Notice::StateEnter => Reaction::Ignore,
        Notice::StateLeave => Reaction::Ignore,
        Notice::Canceled => Reaction::ReportCanceled,
        Notice::Failed => Reaction::ReportFailure,
    }
}

/// Whether the subscription goes on after a reaction. It ends with its own
/// cancellation or failure, and when an event finds nobody who takes it.
pub fn goes_on(reaction: &Reaction, delivered: bool) -> (r: bool)
    ensures
        r == continues(reaction@, delivered),
{
    match reaction {
        Reaction::Ignore => true,
        Reaction::Forward(_) => delivered,
        Reaction::ReportCanceled => false,
        Reaction::ReportFailure => false,
    }
}

/// What each message leads to. Changed files are forwarded, one path for each in
/// its place, or the watched path alone with a fresh instance; a report without
/// files and the beginning or end of a state are ignored. Cancellation and
/// failure are reported as what they are, and end the subscription; so does an
/// event that nobody takes, and nothing else.
pub proof fn law_reactions(watched_path: PathView, notice: Notice, delivered: bool)
    ensures
        ({
            let reaction = reaction_to(watched_path, notice);
            let on = continues(reaction, delivered);
            match notice {
                Notice::FilesChanged(result) => {
                    let count = match result.files {
                        Some(files) => files@.len(),
                        None => 0,
                    };
                    &&& result.is_fresh_instance ==> reaction == ReactionView::Forward(
                        seq![watched_path],
                    ) && on == delivered
                    &&& !result.is_fresh_instance && count == 0 ==> reaction
                        == ReactionView::Ignore && on
                    &&& !result.is_fresh_instance && count > 0 ==> {
                        &&& reaction is Forward
                        &&& (reaction->Forward_0).len() == count
                        &&& forall|i: int|
                            0 <= i < count ==> #[trigger] (reaction->Forward_0)[i] == join(
                                watched_path,
                                (result.files->0)@[i]@,
                            )
                        &&& on == delivered
                    }
                },
                Notice::StateEnter => reaction == ReactionView::Ignore && on,
                Notice::StateLeave => reaction == ReactionView::Ignore && on,
                Notice::Canceled => reaction == ReactionView::ReportCanceled && !on,
                Notice::Failed => reaction == ReactionView::ReportFailure && !on,
            }
        }),
{
    if let Notice::FilesChanged(result) = notice {
        law_changed_paths(watched_path, result);
    }
}

/// All that is passed on because of the messages of a subscription, one after
/// the other, while there is somebody who takes it.
pub open spec fn passed_on(watched_path: PathView, notices: Seq<Notice>) -> Seq<ReactionView>
    decreases notices.len(),
{
    if notices.len() == 0 {
        Seq::empty()
    } else {
        let reaction = reaction_to(watched_path, notices[0]);
        let now = if reaction is Ignore {
            Seq::empty()
        } else {
            seq![reaction]
        };
        if continues(reaction, true) {
            now + passed_on(watched_path, notices.drop_first())
        } else {
            now
        }
    }
}

/// The message is the last one that is listened to.
pub open spec fn is_last(notice: Notice) -> bool {
    notice is Canceled || notice is Failed
}

/// The event that a message amounts to.
pub open spec fn forwarded(watched_path: PathView, notice: Notice) -> Option<ReactionView> {
    match notice {
        Notice::FilesChanged(result) => match changed_paths(watched_path, result) {
            Some(paths) => Some(ReactionView::Forward(paths)),
            None => None,
        },
        _ => None,
    }
}

/// A subscription passes on the events that its messages amount to, all of them
/// and in their order. The first cancellation or failure is reported once, and
/// nothing is passed on behind it: `n` is its place, or the number of messages
/// where there is none.
pub proof fn law_subscription(watched_path: PathView, notices: Seq<Notice>, n: int)
    requires
        0 <= n <= notices.len(),
        forall|k: int| 0 <= k < n ==> !is_last(#[trigger] notices[k]),
        n < notices.len() ==> is_last(notices[n]),
    ensures
        passed_on(watched_path, notices) == notices.take(n).filter_map(
            |notice: Notice| forwarded(watched_path, notice),
        ) + (if n < notices.len() {
            seq![
                if notices[n] is Canceled {
                    ReactionView::ReportCanceled
                } else {
                    ReactionView::ReportFailure
                },
            ]
        } else {
            Seq::empty()
        }),
    decreases notices.len(),
{
    let event = |notice: Notice| forwarded(watched_path, notice);
    if n == 0 {
        assert(notices.take(0).filter_map(event) =~= Seq::empty());
        assert(passed_on(watched_path, notices) =~= notices.take(0).filter_map(event) + passed_on(
            watched_path,
            notices,
        ));
    } else {
        let rest = notices.drop_first();
        assert forall|k: int| 0 <= k < n - 1 implies !is_last(#[trigger] rest[k]) by {
            assert(rest[k] == notices[k + 1]);
        }
        assert(!is_last(notices[0]));
        law_subscription(watched_path, rest, n - 1);
        assert(notices.take(n) =~= seq![notices[0]] + rest.take(n - 1));
        lemma_filter_map_first(notices[0], rest.take(n - 1), event);
        let now = if event(notices[0]) is Some {
            seq![event(notices[0])->0]
        } else {
            Seq::empty()
        };
        assert(passed_on(watched_path, notices) =~= now + passed_on(watched_path, rest));
    }
}

/// What becomes of the first item stands before what becomes of the others.
proof fn lemma_filter_map_first<A, B>(first: A, rest: Seq<A>, f: spec_fn(A) -> Option<B>)
    ensures
        (seq![first] + rest).filter_map(f) == (match f(first) {
            Some(b) => seq![b],
            None => Seq::empty(),
        }) + rest.filter_map(f),
    decreases rest.len(),
{
    let all = seq![first] + rest;
    let n = rest.len() as int;
    if n == 0 {
        assert(all =~= seq![first]);
        assert(rest =~= Seq::empty());
        Seq::lemma_filter_map_singleton(first, f);
        assert(rest.filter_map(f) =~= Seq::empty());
    } else {
        let front = rest.take(n - 1);
        lemma_filter_map_first(first, front, f);
        all.lemma_filter_map_take_succ(f, n);
        rest.lemma_filter_map_take_succ(f, n - 1);
        assert(all.take(n + 1) =~= all);
        assert(rest.take(n) =~= rest);
        assert(all.take(n) =~= seq![first] + front);
        assert(all[n] == rest[n - 1]);
    }
    assert(all.filter_map(f) =~= (match f(first) {
        Some(b) => seq![b],
        None => Seq::empty(),
    }) + rest.filter_map(f));
}

/// What the monitor asks of the watcher.
#[derive(Debug)]
pub enum WatchmanCommand {
    Watch(FilePath),
    Unwatch(FilePath),
}

/// What a command asks for, with the real path in it.
#[derive(Debug)]
pub enum WatchmanAction<T> {
    /// Nothing.
    Nothing,
    /// Subscribe to the path, and enter the subscription.
    Subscribe,
    /// End the subscription with this handle.
    Cancel(T),
}

/// A path and what belongs to it.
#[verifier::ext_equal]
pub struct SubscriptionView<T> {
    pub path: PathView,
    pub handle: T,
}

/// A path and what belongs to it.
struct Subscription<T> {
    path: FilePath,
    handle: T,
}

impl<T> View for Subscription<T> {
    type V = SubscriptionView<T>;

    closed spec fn view(&self) -> SubscriptionView<T> {
        SubscriptionView { path: self.path@, handle: self.handle }
    }
}

/// The paths that are subscribed to, each with the handle of its subscription.
pub struct Subscriptions<T> {
    entries: Vec<Subscription<T>>,
}

/// The paths that are subscribed to.
pub open spec fn subscribed_paths<T>(entries: Seq<SubscriptionView<T>>) -> Seq<PathView> {
    entries.map_values(|e: SubscriptionView<T>| e.path)
}

/// There is a subscription to the path.
pub open spec fn subscribed<T>(entries: Seq<SubscriptionView<T>>, path: PathView) -> bool {
    contains_path(subscribed_paths(entries), path)
}

/// The place of the subscription to the path.
pub open spec fn subscription_index<T>(entries: Seq<SubscriptionView<T>>, path: PathView) -> int {
    choose|i: int|
        0 <= i < entries.len() && same_path(#[trigger] subscribed_paths(entries)[i], path)
}

/// The subscriptions with one to the path; it takes the place of one that is
/// there.
pub open spec fn with_subscription<T>(
    entries: Seq<SubscriptionView<T>>,
    path: PathView,
    handle: T,
) -> Seq<SubscriptionView<T>> {
    if subscribed(entries, path) {
        let i = subscription_index(entries, path);
        entries.update(i, SubscriptionView { handle, ..entries[i] })
    } else {
        entries.push(SubscriptionView { path, handle })
    }
}

/// The subscriptions without one to the path.
pub open spec fn without_subscription<T>(
    entries: Seq<SubscriptionView<T>>,
    path: PathView,
) -> Seq<SubscriptionView<T>> {
    if subscribed(entries, path) {
        entries.remove(subscription_index(entries, path))
    } else {
        entries
    }
}

/// What a command asks for, and the subscriptions after it.
pub open spec fn decided<T>(
    entries: Seq<SubscriptionView<T>>,
    command: WatchmanCommand,
) -> (Seq<SubscriptionView<T>>, WatchmanAction<T>) {
    match command {
        WatchmanCommand::Watch(path) => if subscribed(entries, path@) {
            (entries, WatchmanAction::Nothing)
        } else {
            (entries, WatchmanAction::Subscribe)
        },
        WatchmanCommand::Unwatch(path) => if subscribed(entries, path@) {
            (
                without_subscription(entries, path@),
                WatchmanAction::Cancel(entries[subscription_index(entries, path@)].handle),
            )
        } else {
            (entries, WatchmanAction::Nothing)
        },
    }
}

/// What becomes of subscriptions. A path is subscribed to if and only if the path
/// of an entry is the same. Subscribing puts an entry behind the others, or gives
/// the one that is there another handle; ending takes the one that is there out.
/// Nothing else changes.
pub proof fn law_subscriptions<T>(
    entries: Seq<SubscriptionView<T>>,
    path: PathView,
    handle: T,
    i: int,
)
    requires
        distinct_paths(subscribed_paths(entries)),
    ensures
        subscribed(entries, path) <==> exists|k: int|
            0 <= k < entries.len() && same_path((#[trigger] entries[k]).path, path),
        0 <= i < entries.len() && same_path(entries[i].path, path) ==> {
            &&& subscription_index(entries, path) == i
            &&& with_subscription(entries, path, handle) == entries.update(
                i,
                SubscriptionView { path: entries[i].path, handle },
            )
            &&& without_subscription(entries, path) == entries.remove(i)
        },
        (forall|k: int|
            0 <= k < entries.len() ==> !same_path((#[trigger] entries[k]).path, path)) ==> {
            &&& with_subscription(entries, path, handle) == entries.push(
                SubscriptionView { path, handle },
            )
            &&& without_subscription(entries, path) == entries
        },
{
    let paths = subscribed_paths(entries);
    assert forall|k: int| 0 <= k < entries.len() implies #[trigger] entries[k].path
        == paths[k] by {}
    if subscribed(entries, path) {
        let k = choose|k: int| 0 <= k < paths.len() && same_path(#[trigger] paths[k], path);
        assert(same_path(entries[k].path, path));
    }
    if 0 <= i < entries.len() && same_path(entries[i].path, path) {
        assert(same_path(paths[i], path));
        assert(contains_path(paths, path));
        let k = subscription_index(entries, path);
        assert(same_path(paths[k], path));
        assert(same_path(paths[i], paths[k]));
    }
}

/// What a command asks for: a path that is to be watched and is not subscribed to
/// has to be, and a subscription to one that is no longer to be watched has to be
/// ended. Nothing is asked for otherwise.
pub proof fn law_decided<T>(
    entries: Seq<SubscriptionView<T>>,
    path: FilePath,
    i: int,
)
    requires
        distinct_paths(subscribed_paths(entries)),
    ensures
        0 <= i < entries.len() && same_path(entries[i].path, path@) ==> {
            &&& decided(entries, WatchmanCommand::Watch(path)) == (
                entries,
                WatchmanAction::<T>::Nothing,
            )
            &&& decided(entries, WatchmanCommand::Unwatch(path)) == (
                entries.remove(i),
                WatchmanAction::Cancel(entries[i].handle),
            )
        },
        (forall|k: int|
            0 <= k < entries.len() ==> !same_path((#[trigger] entries[k]).path, path@)) ==> {
            &&& decided(entries, WatchmanCommand::Watch(path)) == (
                entries,
                WatchmanAction::<T>::Subscribe,
            )
            &&& decided(entries, WatchmanCommand::Unwatch(path)) == (
                entries,
                WatchmanAction::<T>::Nothing,
            )
        },
{
    if 0 <= i < entries.len() {
        law_subscriptions(entries, path@, entries[i].handle, i);
    } else if subscribed(entries, path@) {
        let paths = subscribed_paths(entries);
        let k = choose|k: int| 0 <= k < paths.len() && same_path(#[trigger] paths[k], path@);
        assert(same_path(entries[k].path, path@));
    }
}

impl<T> View for Subscriptions<T> {
    type V = Seq<SubscriptionView<T>>;

    closed spec fn view(&self) -> Seq<SubscriptionView<T>> {
        self.entries@.map_values(|e: Subscription<T>| e@)
    }
}

impl<T> Subscriptions<T> {
    /// No path is subscribed to twice.
    pub open spec fn wf(&self) -> bool {
        distinct_paths(subscribed_paths(self@))
    }

    /// No subscriptions.
    pub fn new() -> (r: Self)
        ensures
            r.wf(),
            r@ == Seq::<SubscriptionView<T>>::empty(),
    {
        let r = Subscriptions { entries: Vec::new() };
        assert(r@ =~= Seq::<SubscriptionView<T>>::empty());
        r
    }

    /// The place of the subscription to a path.
    fn find(&self, path: &FilePath) -> (r: Option<usize>)
        requires
            self.wf(),
        ensures
            r is Some <==> subscribed(self@, path@),
            r matches Some(i) ==> i < self.entries@.len() && i == subscription_index(self@, path@)
                && same_path(subscribed_paths(self@)[i as int], path@),
    {
        let ghost paths = subscribed_paths(self@);
        let mut i: usize = 0;
        while i < self.entries.len()
            invariant
                self.wf(),
                paths == subscribed_paths(self@),
                i <= self.entries@.len(),
                forall|j: int| 0 <= j < i ==> !same_path(#[trigger] paths[j], path@),
            decreases self.entries.len() - i,
        {
            assert(paths[i as int] == self.entries@[i as int].path@);
            if self.entries[i].path.same_path(path) {
                proof {
                    assert(subscribed(self@, path@));
                    let k = subscription_index(self@, path@);
                    assert(same_path(paths[i as int], paths[k]));
                }
                return Some(i);
            }
            i = i + 1;
        }
        None
    }

    /// Whether there is a subscription to `path`.
    pub fn contains(&self, path: &FilePath) -> (r: bool)
        requires
            self.wf(),
        ensures
            r == subscribed(self@, path@),
    {
        self.find(path).is_some()
    }

    /// Enters a subscription to `path`, and hands back the handle of the one
    /// that it replaces.
    pub fn insert(&mut self, path: FilePath, handle: T) -> (r: Option<T>)
        requires
            old(self).wf(),
        ensures
            final(self).wf(),
            subscribed(final(self)@, path@),
            final(self)@ == with_subscription(old(self)@, path@, handle),
            match r {
                Some(replaced) => {
                    let i = subscription_index(old(self)@, path@);
                    &&& subscribed(old(self)@, path@)
                    &&& replaced == old(self)@[i].handle
                    &&& final(self)@ == old(self)@.update(
                        i,
                        SubscriptionView { handle, ..old(self)@[i] },
                    )
                },
                None => {
                    &&& !subscribed(old(self)@, path@)
                    &&& final(self)@ == old(self)@.push(
                        (SubscriptionView { path: path@, handle }),
                    )
                },
            },
    {
        match self.find(&path) {
            Some(i) => {
                let mut other = handle;
                assert(self@[i as int] == self.entries@[i as int]@);
                std::mem::swap(&mut self.entries[i].handle, &mut other);
                proof {
                    let after = old(self)@.update(
                        i as int,
                        SubscriptionView { handle, ..old(self)@[i as int] },
                    );
                    assert(self@ =~= after);
                    assert(subscribed_paths(self@) =~= subscribed_paths(old(self)@));
                }
                Some(other)
            },
            None => {
                self.entries.push(Subscription { path, handle });
                proof {
                    let before = subscribed_paths(old(self)@);
                    assert(self@ =~= old(self)@.push(SubscriptionView { path: path@, handle }));
                    assert(subscribed_paths(self@) =~= before.push(path@));
                    law_insert_path(before, path@);
                    assert(same_path(path@, path@));
                }
                None
            },
        }
    }

    /// Takes out the subscription to `path`, and hands back its handle.
    pub fn remove(&mut self, path: &FilePath) -> (r: Option<T>)
        requires
            old(self).wf(),
        ensures
            final(self).wf(),
            !subscribed(final(self)@, path@),
            final(self)@ == without_subscription(old(self)@, path@),
            match r {
                Some(handle) => {
                    let i = subscription_index(old(self)@, path@);
                    &&& subscribed(old(self)@, path@)
                    &&& handle == old(self)@[i].handle
                    &&& final(self)@ == old(self)@.remove(i)
                },
                None => !subscribed(old(self)@, path@) && final(self)@ == old(self)@,
            },
    {
        match self.find(path) {
            Some(i) => {
                assert(self@[i as int] == self.entries@[i as int]@);
                let entry = self.entries.remove(i);
                proof {
                    let before = subscribed_paths(old(self)@);
                    let after = subscribed_paths(self@);
                    assert(self@ =~= old(self)@.remove(i as int));
                    assert(after =~= before.remove(i as int));
                    lemma_remove_distinct(before, i as int);
                    if subscribed(self@, path@) {
                        let j = choose|j: int|
                            0 <= j < after.len() && same_path(#[trigger] after[j], path@);
                        let k = if j < i { j } else { j + 1 };
                        assert(same_path(before[k], before[i as int]));
                    }
                }
                Some(entry.handle)
            },
            None => None,
        }
    }

    /// Says what a command with a real path asks for. A path that is subscribed
    /// to needs no other subscription; one that need not be watched any more is
    /// taken out.
    pub fn decide(&mut self, command: &WatchmanCommand) -> (r: WatchmanAction<T>)
        requires
            old(self).wf(),
        ensures
            final(self).wf(),
            (final(self)@, r) == decided(old(self)@, *command),
            match command {
                WatchmanCommand::Watch(path) => final(self)@ == old(self)@ && (if subscribed(
                    old(self)@,
                    path@,
                ) {
                    r is Nothing
                } else {
                    r is Subscribe
                }),
                WatchmanCommand::Unwatch(path) => if subscribed(old(self)@, path@) {
                    let i = subscription_index(old(self)@, path@);
                    r == WatchmanAction::Cancel(old(self)@[i].handle) && final(self)@ == old(
                        self,
                    )@.remove(i)
                } else {
                    r is Nothing && final(self)@ == old(self)@
                },
            },
    {
        match command {
            WatchmanCommand::Watch(path) => if self.contains(path) {
                WatchmanAction::Nothing
            } else {
                WatchmanAction::Subscribe
            },
            WatchmanCommand::Unwatch(path) => match self.remove(path) {
                Some(handle) => WatchmanAction::Cancel(handle),
                None => WatchmanAction::Nothing,
            },
        }
    }

    /// Hands out the handles of all subscriptions.
    pub fn into_handles(self) -> (r: Vec<T>)
        ensures
            r@ == self@.map_values(|e: SubscriptionView<T>| e.handle),
    {
        let mut entries = self.entries;
        let mut out: Vec<T> = Vec::new();
        let ghost all = self@.map_values(|e: SubscriptionView<T>| e.handle);
        while entries.len() > 0
            invariant
                all == self@.map_values(|e: SubscriptionView<T>| e.handle),
                out@.len() + entries@.len() == all.len() == self.entries@.len(),
                out@ == all.take(out@.len() as int),
                entries@ == self.entries@.skip(out@.len() as int),
            decreases entries@.len(),
        {
            let ghost n = out@.len() as int;
            assert(entries@[0] == self.entries@[n]);
            let entry = entries.remove(0);
            out.push(entry.handle);
            assert(out@ =~= all.take(n + 1));
            assert(entries@ =~= self.entries@.skip(n + 1));
        }
        assert(all.take(out@.len() as int) =~= all);
        out
    }
}

} // verus!
