//! The agenda of one traversal.
//!
//! A [`Walk`] decides what a mirroring run does next and in which order; its
//! caller does the work on the file system and reports back. Paths are
//! relative: the sequence of entry names that leads from the root of the
//! traversal to an entry. The same path is read below the source root and
//! written below the destination root, so the destination mirrors the source
//! by construction.

use crate::entry::{ends_with_html, entry_views, has_html_suffix, DirEntry, EntryView};
use crate::fragment::texts;
use vstd::prelude::*;

verus! {

/// What the caller of a [`Walk`] is asked to do next.
#[derive(Debug, Clone, PartialEq, Eq)]
pub enum Action {
    /// List the source directory at this path and make sure, as far as that
    /// goes, that the destination directory at the same path exists; then
    /// report the entries with [`Walk::listed`].
    List(Vec<String>),
    /// Read the source file at this path, extract its fragment, write it to
    /// the destination file at the same path in place of whatever is there;
    /// then report with [`Walk::written`].
    Extract(Vec<String>),
}

/// An [`Action`] with its path as a sequence of texts.
pub enum ActionView {
    List(Seq<Seq<char>>),
    Extract(Seq<Seq<char>>),
}

impl ActionView {
    /// The path that the action is about.
    pub open spec fn path(self) -> Seq<Seq<char>> {
        match self {
            ActionView::List(path) => path,
            ActionView::Extract(path) => path,
        }
    }
}

impl View for Action {
    type V = ActionView;

    open spec fn view(&self) -> ActionView {
        match self {
            Action::List(path) => ActionView::List(texts(path@)),
            Action::Extract(path) => ActionView::Extract(texts(path@)),
        }
    }
}

/// A report that the walk could not take.
#[derive(Debug, Clone, Copy, PartialEq, Eq)]
pub enum WalkError {
    /// A listing was reported while no listing was asked for.
    NotListing,
    /// A written file was reported while no extraction was asked for.
    NotExtracting,
    /// The count of written files cannot grow any further.
    CounterFull,
}

/// What one entry of the directory at `path` asks for: to be listed if it is
/// a directory, then to be extracted if its name ends in `.html`. An entry
/// that is neither asks for nothing.
pub open spec fn entry_actions(path: Seq<Seq<char>>, entry: EntryView) -> Seq<ActionView> {
    let at = path.push(entry.name);
    let list = if entry.is_dir {
        seq![ActionView::List(at)]
    } else {
        Seq::empty()
    };
    let extract = if has_html_suffix(entry.name) {
        seq![ActionView::Extract(at)]
    } else {
        Seq::empty()
    };
    list + extract
}

/// What the entries of the directory at `path` ask for, entry after entry in
/// the order of the listing.
pub open spec fn directory_actions(path: Seq<Seq<char>>, entries: Seq<EntryView>) -> Seq<
    ActionView,
>
    decreases entries.len(),
{
    if entries.len() == 0 {
        Seq::empty()
    } else {
        entry_actions(path, entries[0]) + directory_actions(path, entries.skip(1))
    }
}

/// Entries that are neither directories nor named like HTML files are passed
/// over: a listing of nothing else asks for nothing.
pub proof fn lemma_other_entries_ask_for_nothing(path: Seq<Seq<char>>, entries: Seq<EntryView>)
    requires
        forall|i: int|
            0 <= i < entries.len() ==> !(#[trigger] entries[i]).is_dir && !has_html_suffix(
                entries[i].name,
            ),
    ensures
        directory_actions(path, entries) == Seq::<ActionView>::empty(),
    decreases entries.len(),
{
    if entries.len() > 0 {
        assert(entry_actions(path, entries[0]) =~= Seq::empty());
        assert forall|i: int| 0 <= i < entries.skip(1).len() implies !(#[trigger] entries.skip(
            1,
        )[i]).is_dir && !has_html_suffix(entries.skip(1)[i].name) by {
            assert(entries.skip(1)[i] == entries[i + 1]);
        }
        lemma_other_entries_ask_for_nothing(path, entries.skip(1));
        assert(directory_actions(path, entries) =~= Seq::empty());
    }
}

/// The state of a traversal: the actions that are known to be due, the next
/// one first, and the number of files written so far.
pub struct WalkView {
    pub agenda: Seq<ActionView>,
    pub count: nat,
}

impl WalkView {
    /// A traversal before anything is done, on top of `count` files written
    /// earlier: its root is to be listed.
    pub open spec fn start_at(count: nat) -> WalkView {
        WalkView { agenda: seq![ActionView::List(Seq::empty())], count }
    }

    /// A traversal before anything is done, with nothing counted.
    pub open spec fn start() -> WalkView {
        WalkView::start_at(0)
    }

    /// Whether the next action is a listing.
    pub open spec fn awaits_listing(self) -> bool {
        self.agenda.len() > 0 && self.agenda[0] is List
    }

    /// Whether the next action is an extraction.
    pub open spec fn awaits_write(self) -> bool {
        self.agenda.len() > 0 && self.agenda[0] is Extract
    }

    /// Whether nothing is left to do.
    pub open spec fn finished(self) -> bool {
        self.agenda.len() == 0
    }

    /// The state after the directory that was to be listed turned out to hold
    /// `entries`: what they ask for comes before everything else that is due.
    pub open spec fn listed(self, entries: Seq<EntryView>) -> WalkView {
        WalkView {
            agenda: directory_actions(self.agenda[0].path(), entries) + self.agenda.skip(1),
            count: self.count,
        }
    }

    /// The state after the file that was to be extracted has been written.
    pub open spec fn written(self) -> WalkView {
        WalkView { agenda: self.agenda.skip(1), count: self.count + 1 }
    }
}

/// The traversal of one tree: a stack of the actions that are due, the next
/// one on top, and the count of files written.
pub struct Walk {
    stack: Vec<Action>,
    count: u32,
}

/// The agenda that a stack stands for: its actions from the top down.
spec fn agenda_of(stack: Seq<Action>) -> Seq<ActionView> {
    Seq::new(stack.len(), |i: int| stack[stack.len() - 1 - i]@)
}

proof fn lemma_agenda_push(stack: Seq<Action>, action: Action)
    ensures
        agenda_of(stack.push(action)) == seq![action@] + agenda_of(stack),
{
    assert(agenda_of(stack.push(action)) =~= seq![action@] + agenda_of(stack));
}

proof fn lemma_agenda_pop(stack: Seq<Action>)
    requires
        stack.len() > 0,
    ensures
        agenda_of(stack.drop_last()) == agenda_of(stack).skip(1),
        agenda_of(stack)[0] == stack.last()@,
{
    assert(agenda_of(stack.drop_last()) =~= agenda_of(stack).skip(1));
}

/// Copies a path.
fn clone_path(path: &Vec<String>) -> (copy: Vec<String>)
    ensures
        copy@ == path@,
{
    let mut copy: Vec<String> = Vec::new();
    let mut i: usize = 0;
    while i < path.len()
        invariant
            i <= path.len(),
            copy@ == path@.take(i as int),
        decreases path.len() - i,
    {
        copy.push(path[i].clone());
        assert(path@.take(i + 1) =~= path@.take(i as int).push(path@[i as int]));
        i += 1;
    }
    assert(path@.take(path.len() as int) =~= path@);
    copy
}

impl View for Walk {
    type V = WalkView;

    closed spec fn view(&self) -> WalkView {
        WalkView { agenda: agenda_of(self.stack@), count: self.count as nat }
    }
}

impl Walk {
    /// A traversal that has not begun: the root is to be listed and nothing
    /// is counted.
    pub fn new() -> (walk: Walk)
        ensures
            walk@ == WalkView::start(),
    {
        Walk::with_count(0)
    }

    /// A traversal that has not begun and goes on counting from `count`, the
    /// number of files that earlier traversals wrote.
    pub fn with_count(count: u32) -> (walk: Walk)
        ensures
            walk@ == WalkView::start_at(count as nat),
    {
        let root: Vec<String> = Vec::new();
        assert(texts(root@) =~= Seq::empty());
        let mut stack: Vec<Action> = Vec::new();
        stack.push(Action::List(root));
        let walk = Walk { stack, count };
        assert(walk@.agenda =~= WalkView::start_at(count as nat).agenda);
        walk
    }

    /// The action that is due, or `None` when the traversal is complete.
    pub fn pending(&self) -> (next: Option<&Action>)
        ensures
            next is None <==> self@.finished(),
            next matches Some(action) ==> action@ == self@.agenda[0],
    {
        let len = self.stack.len();
        if len == 0 {
            None
        } else {
            Some(&self.stack[len - 1])
        }
    }

    /// The number of files written so far.
    pub fn count(&self) -> (count: u32)
        ensures
            count == self@.count,
    {
        self.count
    }

    /// Takes the listing of the directory that was to be listed. What its
    /// entries ask for is done next, in the order of the listing, and before
    /// anything else that was already due. Where no listing was asked for,
    /// nothing changes.
    pub fn listed(&mut self, entries: &Vec<DirEntry>) -> (taken: Result<(), WalkError>)
        ensures
            taken is Ok <==> old(self)@.awaits_listing(),
            taken is Ok ==> final(self)@ == old(self)@.listed(entry_views(entries@)),
            taken matches Err(e) ==> e == WalkError::NotListing && final(self)@ == old(self)@,
    {
        let len = self.stack.len();
        if len == 0 {
            return Err(WalkError::NotListing);
        }
        let path = match &self.stack[len - 1] {
            Action::List(path) => clone_path(path),
            Action::Extract(_) => {
                return Err(WalkError::NotListing);
            },
        };
        let ghost rest = agenda_of(self.stack@).skip(1);
        let ghost listing = entry_views(entries@);
        proof {
            lemma_agenda_pop(self.stack@);
        }
        self.stack.pop();
        let mut i: usize = entries.len();
        while i > 0
            invariant
                i <= entries.len(),
                listing == entry_views(entries@),
                self.count == old(self).count,
                agenda_of(self.stack@) == directory_actions(texts(path@), listing.skip(i as int))
                    + rest,
            decreases i,
        {
            i -= 1;
            let entry = &entries[i];
            let ghost at = texts(path@).push(entry.name@);
            proof {
                assert(listing.skip(i as int).skip(1) =~= listing.skip(i + 1));
            }
            if ends_with_html(entry.name.as_str()) {
                let mut target = clone_path(&path);
                target.push(entry.name.clone());
                assert(texts(target@) =~= at);
                proof {
                    lemma_agenda_push(self.stack@, Action::Extract(target));
                }
                self.stack.push(Action::Extract(target));
            }
            if entry.is_dir {
                let mut target = clone_path(&path);
                target.push(entry.name.clone());
                assert(texts(target@) =~= at);
                proof {
                    lemma_agenda_push(self.stack@, Action::List(target));
                }
                self.stack.push(Action::List(target));
            }
            assert(agenda_of(self.stack@) =~= directory_actions(
                texts(path@),
                listing.skip(i as int),
            ) + rest);
        }
        assert(listing.skip(0) =~= listing);
        Ok(())
    }

    /// Takes the report that the file that was to be extracted has been
    /// written, and counts it. Where no extraction was asked for, or the
    /// count is at its limit, nothing changes.
    pub fn written(&mut self) -> (taken: Result<(), WalkError>)
        ensures
            taken is Ok <==> old(self)@.awaits_write() && old(self)@.count < u32::MAX,
            taken is Ok ==> final(self)@ == old(self)@.written(),
            taken is Err ==> final(self)@ == old(self)@,
            taken matches Err(e) ==> e == if old(self)@.awaits_write() {
                WalkError::CounterFull
            } else {
                WalkError::NotExtracting
            },
    {
        let len = self.stack.len();
        if len == 0 {
            return Err(WalkError::NotExtracting);
        }
        match &self.stack[len - 1] {
            Action::List(_) => {
                return Err(WalkError::NotExtracting);
            },
            Action::Extract(_) => {},
        }
        if self.count == u32::MAX {
            return Err(WalkError::CounterFull);
        }
        proof {
            lemma_agenda_pop(self.stack@);
        }
        self.stack.pop();
        self.count = self.count + 1;
        Ok(())
    }
}

} // verus!
