//! What a traversal of a given tree requests and writes.
//!
//! The tree is a model: the entries that every listing would report and the
//! text that every read would return. A [`Run`] answers a [`WalkView`] from
//! it, directory by directory, and records the directories that were listed
//! and the files that were written. Listing, reading, extracting and writing
//! are taken to succeed wherever the tree allows them. The laws relate the
//! record of a run to the tree itself.

use crate::entry::{has_html_suffix, EntryView};
use crate::fragment::{fragment_of, main_selector, selected_inner_markup};
use crate::walk::{directory_actions, entry_actions, ActionView, WalkView};
use vstd::prelude::*;

verus! {

/// What an entry of the source tree is.
pub enum SourceNode {
    /// A file with this text.
    File(Seq<char>),
    /// A directory with these entries, in the order in which they are
    /// listed.
    Directory(Seq<SourceEntry>),
}

/// A named entry of the source tree.
pub struct SourceEntry {
    pub name: Seq<char>,
    pub node: SourceNode,
}

/// A file written below the destination root.
pub struct Write {
    pub path: Seq<Seq<char>>,
    pub content: Seq<char>,
}

/// A traversal under way: the state of the walk, whether the run has come to
/// a halt before its end, and what has been done so far.
pub struct Run {
    pub walk: WalkView,
    pub halted: bool,
    pub listed: Seq<Seq<Seq<char>>>,
    pub written: Seq<Write>,
}

/// The listing of a directory that holds `entries`.
pub open spec fn listing_of(entries: Seq<SourceEntry>) -> Seq<EntryView> {
    entries.map_values(
        |e: SourceEntry| EntryView { name: e.name, is_dir: e.node is Directory },
    )
}

/// A run before anything is done, on top of `count` files written earlier.
pub open spec fn fresh_run(count: nat) -> Run {
    Run {
        walk: WalkView::start_at(count),
        halted: false,
        listed: Seq::empty(),
        written: Seq::empty(),
    }
}

/// The run after the directory that the walk asks for was listed and found
/// to hold `entries`. A run that has halted stays as it is, and a run whose
/// walk asks for no listing halts.
pub open spec fn answer_listing(run: Run, entries: Seq<SourceEntry>) -> Run {
    if run.halted {
        run
    } else if !run.walk.awaits_listing() {
        Run { halted: true, ..run }
    } else {
        Run {
            walk: run.walk.listed(listing_of(entries)),
            listed: run.listed.push(run.walk.agenda[0].path()),
            ..run
        }
    }
}

/// The run after the file that the walk asks for was read as `content`, and
/// the fragment of its `main` element written to the same path. A run whose
/// walk asks for no extraction, or cannot count any further, halts.
pub open spec fn answer_extract(run: Run, content: Seq<char>) -> Run {
    if run.halted {
        run
    } else if !run.walk.awaits_write() || run.walk.count >= u32::MAX {
        Run { halted: true, ..run }
    } else {
        Run {
            walk: run.walk.written(),
            written: run.written.push(
                Write {
                    path: run.walk.agenda[0].path(),
                    content: fragment_of(content, main_selector()),
                },
            ),
            ..run
        }
    }
}

/// The run after one entry was served: a directory is listed and its entries
/// served in turn; then, where the name ends in `.html`, the entry is read
/// and its fragment written. A directory cannot be read as a file, so a
/// directory of such a name halts the run once its entries are served.
pub open spec fn serve_entry(run: Run, entry: SourceEntry) -> Run
    decreases entry, 0nat,
{
    match entry.node {
        SourceNode::Directory(entries) => {
            let below = serve(answer_listing(run, entries), entries, 0);
            if has_html_suffix(entry.name) {
                Run { halted: true, ..below }
            } else {
                below
            }
        },
        SourceNode::File(content) => {
            if has_html_suffix(entry.name) {
                answer_extract(run, content)
            } else {
                run
            }
        },
    }
}

/// The run after the entries of one directory, from index `from` on, were
/// served in the order of the listing.
pub open spec fn serve(run: Run, entries: Seq<SourceEntry>, from: nat) -> Run
    decreases entries, entries.len() - from,
{
    if from >= entries.len() {
        run
    } else {
        serve(serve_entry(run, entries[from as int]), entries, from + 1)
    }
}

/// The whole run on the tree whose root directory holds `root`, counting on
/// from `count`.
pub open spec fn run_tree(root: Seq<SourceEntry>, count: nat) -> Run {
    serve(answer_listing(fresh_run(count), root), root, 0)
}

/// The directories inside one entry of the directory at `path`: the entry
/// itself where it is a directory, then those below it, each before what it
/// holds.
pub open spec fn entry_directories(path: Seq<Seq<char>>, entry: SourceEntry) -> Seq<
    Seq<Seq<char>>,
>
    decreases entry, 0nat,
{
    match entry.node {
        SourceNode::Directory(entries) => seq![path.push(entry.name)] + directories(
            path.push(entry.name),
            entries,
            0,
        ),
        SourceNode::File(_) => Seq::empty(),
    }
}

/// The directories below the directory at `path`, which holds `entries`,
/// counting the entries from index `from` on.
pub open spec fn directories(path: Seq<Seq<char>>, entries: Seq<SourceEntry>, from: nat) -> Seq<
    Seq<Seq<char>>,
>
    decreases entries, entries.len() - from,
{
    if from >= entries.len() {
        Seq::empty()
    } else {
        entry_directories(path, entries[from as int]) + directories(path, entries, from + 1)
    }
}

/// The files that one entry of the directory at `path` gives rise to: the
/// fragment of every file inside it whose name ends in `.html`, at that
/// file's own path.
pub open spec fn entry_writes(path: Seq<Seq<char>>, entry: SourceEntry) -> Seq<Write>
    decreases entry, 0nat,
{
    match entry.node {
        SourceNode::Directory(entries) => writes(path.push(entry.name), entries, 0),
        SourceNode::File(content) => if has_html_suffix(entry.name) {
            seq![
                Write {
                    path: path.push(entry.name),
                    content: fragment_of(content, main_selector()),
                },
            ]
        } else {
            Seq::empty()
        },
    }
}

/// The files that the entries of the directory at `path` give rise to,
/// counting the entries from index `from` on.
pub open spec fn writes(path: Seq<Seq<char>>, entries: Seq<SourceEntry>, from: nat) -> Seq<Write>
    decreases entries, entries.len() - from,
{
    if from >= entries.len() {
        Seq::empty()
    } else {
        entry_writes(path, entries[from as int]) + writes(path, entries, from + 1)
    }
}

/// Whether no directory inside `entry`, itself included, has a name that
/// ends in `.html`.
pub open spec fn entry_has_plain_directories(entry: SourceEntry) -> bool
    decreases entry, 0nat,
{
    match entry.node {
        SourceNode::Directory(entries) => !has_html_suffix(entry.name) && has_plain_directories(
            entries,
            0,
        ),
        SourceNode::File(_) => true,
    }
}

/// Whether no directory below `entries`, from index `from` on, has a name
/// that ends in `.html`. Only such a tree can be traversed to the end.
pub open spec fn has_plain_directories(entries: Seq<SourceEntry>, from: nat) -> bool
    decreases entries, entries.len() - from,
{
    from < entries.len() ==> entry_has_plain_directories(entries[from as int])
        && has_plain_directories(entries, from + 1)
}

/// Whether every file inside `entry` has a name that ends in `.html` and
/// exactly one `main` element, and no directory inside it has such a name.
pub open spec fn entry_holds_single_main_files(entry: SourceEntry) -> bool
    decreases entry, 0nat,
{
    match entry.node {
        SourceNode::Directory(entries) => !has_html_suffix(entry.name)
            && holds_single_main_files(entries, 0),
        SourceNode::File(content) => has_html_suffix(entry.name) && selected_inner_markup(
            content,
            main_selector(),
        ).len() == 1,
    }
}

/// Whether the tree below `entries`, from index `from` on, holds nothing but
/// HTML files with exactly one `main` element each.
pub open spec fn holds_single_main_files(entries: Seq<SourceEntry>, from: nat) -> bool
    decreases entries, entries.len() - from,
{
    from < entries.len() ==> entry_holds_single_main_files(entries[from as int])
        && holds_single_main_files(entries, from + 1)
}

/// The number of files inside `entry`.
pub open spec fn entry_file_count(entry: SourceEntry) -> nat
    decreases entry, 0nat,
{
    match entry.node {
        SourceNode::Directory(entries) => file_count(entries, 0),
        SourceNode::File(_) => 1,
    }
}

/// The number of files below `entries`, from index `from` on.
pub open spec fn file_count(entries: Seq<SourceEntry>, from: nat) -> nat
    decreases entries, entries.len() - from,
{
    if from >= entries.len() {
        0
    } else {
        entry_file_count(entries[from as int]) + file_count(entries, from + 1)
    }
}

/// Every file inside `entry`, at its own path, with the inner markup of the
/// first `main` element of its text as content.
pub open spec fn entry_mirror(path: Seq<Seq<char>>, entry: SourceEntry) -> Seq<Write>
    decreases entry, 0nat,
{
    match entry.node {
        SourceNode::Directory(entries) => mirror(path.push(entry.name), entries, 0),
        SourceNode::File(content) => seq![
            Write {
                path: path.push(entry.name),
                content: selected_inner_markup(content, main_selector())[0],
            },
        ],
    }
}

/// Every file below the directory at `path`, which holds `entries`, counting
/// the entries from index `from` on: each at its own path, with the inner
/// markup of the first `main` element of its text as content.
pub open spec fn mirror(path: Seq<Seq<char>>, entries: Seq<SourceEntry>, from: nat) -> Seq<Write>
    decreases entries, entries.len() - from,
{
    if from >= entries.len() {
        Seq::empty()
    } else {
        entry_mirror(path, entries[from as int]) + mirror(path, entries, from + 1)
    }
}

/// Whether `write` goes to a path whose last name ends in `.html`.
pub open spec fn is_html_write(write: Write) -> bool {
    write.path.len() > 0 && has_html_suffix(write.path.last())
}

/// The content of the last of `writes` that goes to `path`, if any does.
pub open spec fn last_write(writes: Seq<Write>, path: Seq<Seq<char>>) -> Option<Seq<char>>
    decreases writes.len(),
{
    if writes.len() == 0 {
        None
    } else if writes.last().path == path {
        Some(writes.last().content)
    } else {
        last_write(writes.drop_last(), path)
    }
}

/// The files below the destination root, by path, once `writes` have been
/// carried out in order on top of the files `before`: a write replaces what
/// was at its path.
pub open spec fn destination_after(
    before: Map<Seq<Seq<char>>, Seq<char>>,
    writes: Seq<Write>,
) -> Map<Seq<Seq<char>>, Seq<char>>
    decreases writes.len(),
{
    if writes.len() == 0 {
        before
    } else {
        destination_after(before, writes.drop_last()).insert(
            writes.last().path,
            writes.last().content,
        )
    }
}

/// One extraction writes one file and counts one, whatever the document
/// holds: the empty text where it has no `main` element, and the inner
/// markup of the first where it has one or several.
pub proof fn lemma_extraction_writes_first_main(run: Run, content: Seq<char>)
    requires
        !run.halted,
        run.walk.awaits_write(),
        run.walk.count < u32::MAX,
    ensures
        !answer_extract(run, content).halted,
        answer_extract(run, content).walk.count == run.walk.count + 1,
        answer_extract(run, content).written.len() == run.written.len() + 1,
        answer_extract(run, content).written.last().path == run.walk.agenda[0].path(),
        selected_inner_markup(content, main_selector()).len() == 0 ==> answer_extract(
            run,
            content,
        ).written.last().content.len() == 0,
        selected_inner_markup(content, main_selector()).len() > 0 ==> answer_extract(
            run,
            content,
        ).written.last().content == selected_inner_markup(content, main_selector())[0],
{
}

/// Nothing is taken back: whatever a run goes through, and whether or not it
/// halts on the way, what was listed and written before stays as it was.
pub proof fn lemma_serve_entry_keeps_record(run: Run, entry: SourceEntry)
    ensures
        run.listed.is_prefix_of(serve_entry(run, entry).listed),
        run.written.is_prefix_of(serve_entry(run, entry).written),
        run.halted ==> serve_entry(run, entry) == run,
    decreases entry, 0nat,
{
    match entry.node {
        SourceNode::Directory(entries) => {
            lemma_serve_keeps_record(answer_listing(run, entries), entries, 0);
        },
        SourceNode::File(_) => {},
    }
}

/// Nothing is taken back while the entries of a directory are served, and a
/// run that has halted does nothing more.
pub proof fn lemma_serve_keeps_record(run: Run, entries: Seq<SourceEntry>, from: nat)
    ensures
        run.listed.is_prefix_of(serve(run, entries, from).listed),
        run.written.is_prefix_of(serve(run, entries, from).written),
        run.halted ==> serve(run, entries, from) == run,
    decreases entries, entries.len() - from,
{
    if from < entries.len() {
        let next = serve_entry(run, entries[from as int]);
        lemma_serve_entry_keeps_record(run, entries[from as int]);
        lemma_serve_keeps_record(next, entries, from + 1);
    }
}

/// A run that has not halted goes through one entry as the tree says: it
/// lists the directories inside it, writes the fragments of the HTML files
/// inside it, and leaves the walk with what was due after the entry.
pub proof fn lemma_serve_entry(
    run: Run,
    path: Seq<Seq<char>>,
    entry: SourceEntry,
    rest: Seq<ActionView>,
)
    requires
        !run.halted,
        run.walk.agenda == entry_actions(
            path,
            EntryView { name: entry.name, is_dir: entry.node is Directory },
        ) + rest,
        entry_has_plain_directories(entry),
        run.walk.count + entry_writes(path, entry).len() <= u32::MAX,
    ensures
        serve_entry(run, entry) == (Run {
            walk: WalkView {
                agenda: rest,
                count: run.walk.count + entry_writes(path, entry).len(),
            },
            halted: false,
            listed: run.listed + entry_directories(path, entry),
            written: run.written + entry_writes(path, entry),
        }),
    decreases entry, 0nat,
{
    let at = path.push(entry.name);
    match entry.node {
        SourceNode::Directory(entries) => {
            assert(run.walk.agenda[0] == ActionView::List(at));
            assert(run.walk.agenda.skip(1) =~= rest);
            let inside = answer_listing(run, entries);
            assert(listing_of(entries).skip(0) =~= listing_of(entries));
            lemma_serve(inside, at, entries, 0, rest);
            let after = serve(inside, entries, 0);
            assert(after.listed =~= run.listed + entry_directories(path, entry));
        },
        SourceNode::File(content) => {
            if has_html_suffix(entry.name) {
                assert(run.walk.agenda[0] == ActionView::Extract(at));
                assert(run.walk.agenda.skip(1) =~= rest);
                assert(answer_extract(run, content).written =~= run.written + entry_writes(
                    path,
                    entry,
                ));
            } else {
                assert(run.walk.agenda =~= rest);
                assert(run.written + entry_writes(path, entry) =~= run.written);
            }
            assert(run.listed + entry_directories(path, entry) =~= run.listed);
        },
    }
}

/// A run that has not halted goes through the entries of a directory as the
/// tree says, and leaves the walk with what was due after that directory.
pub proof fn lemma_serve(
    run: Run,
    path: Seq<Seq<char>>,
    entries: Seq<SourceEntry>,
    from: nat,
    rest: Seq<ActionView>,
)
    requires
        !run.halted,
        from <= entries.len(),
        run.walk.agenda == directory_actions(path, listing_of(entries).skip(from as int)) + rest,
        has_plain_directories(entries, from),
        run.walk.count + writes(path, entries, from).len() <= u32::MAX,
    ensures
        serve(run, entries, from) == (Run {
            walk: WalkView {
                agenda: rest,
                count: run.walk.count + writes(path, entries, from).len(),
            },
            halted: false,
            listed: run.listed + directories(path, entries, from),
            written: run.written + writes(path, entries, from),
        }),
    decreases entries, entries.len() - from,
{
    let listing = listing_of(entries);
    if from >= entries.len() {
        assert(listing.skip(from as int).len() == 0);
        assert(run.walk.agenda =~= rest);
        assert(run.listed + directories(path, entries, from) =~= run.listed);
        assert(run.written + writes(path, entries, from) =~= run.written);
    } else {
        let entry = entries[from as int];
        let later = directory_actions(path, listing.skip((from + 1) as int));
        assert(listing.skip(from as int)[0] == EntryView {
            name: entry.name,
            is_dir: entry.node is Directory,
        });
        assert(listing.skip(from as int).skip(1) =~= listing.skip((from + 1) as int));
        assert(run.walk.agenda =~= entry_actions(path, listing[from as int]) + (later + rest));
        lemma_serve_entry(run, path, entry, later + rest);
        let next = serve_entry(run, entry);
        lemma_serve(next, path, entries, from + 1, rest);
        let end = serve(next, entries, from + 1);
        assert(end.listed =~= run.listed + directories(path, entries, from));
        assert(end.written =~= run.written + writes(path, entries, from));
    }
}

/// A traversal follows the tree. On a tree that can be traversed to the end,
/// and whose HTML files can be counted, the run does not halt and leaves
/// nothing to do; it lists the root and every directory below it, each
/// before what it holds; it writes the fragment of every file whose name
/// ends in `.html`, at that file's own path and in the order of the
/// listings; and it counts one for each file written.
pub proof fn lemma_run_follows_tree(root: Seq<SourceEntry>, count: nat)
    requires
        has_plain_directories(root, 0),
        count + writes(Seq::empty(), root, 0).len() <= u32::MAX,
    ensures
        !run_tree(root, count).halted,
        run_tree(root, count).walk.finished(),
        run_tree(root, count).walk.count == count + writes(Seq::empty(), root, 0).len(),
        run_tree(root, count).listed == seq![Seq::<Seq<char>>::empty()] + directories(
            Seq::empty(),
            root,
            0,
        ),
        run_tree(root, count).written == writes(Seq::empty(), root, 0),
{
    let top = Seq::<Seq<char>>::empty();
    let begun = answer_listing(fresh_run(count), root);
    assert(fresh_run(count).walk.agenda[0] == ActionView::List(top));
    assert(fresh_run(count).walk.agenda.skip(1) =~= Seq::empty());
    assert(listing_of(root).skip(0) =~= listing_of(root));
    assert(begun.walk.agenda =~= directory_actions(top, listing_of(root).skip(0)) + Seq::empty());
    lemma_serve(begun, top, root, 0, Seq::empty());
    assert(begun.listed =~= seq![top]);
    assert(Seq::<Write>::empty() + writes(top, root, 0) =~= writes(top, root, 0));
}

proof fn lemma_entry_of_single_main_files(path: Seq<Seq<char>>, entry: SourceEntry)
    requires
        entry_holds_single_main_files(entry),
    ensures
        entry_has_plain_directories(entry),
        entry_writes(path, entry) == entry_mirror(path, entry),
        entry_writes(path, entry).len() == entry_file_count(entry),
    decreases entry, 0nat,
{
    match entry.node {
        SourceNode::Directory(entries) => {
            lemma_tree_of_single_main_files(path.push(entry.name), entries, 0);
        },
        SourceNode::File(_) => {},
    }
}

proof fn lemma_tree_of_single_main_files(
    path: Seq<Seq<char>>,
    entries: Seq<SourceEntry>,
    from: nat,
)
    requires
        holds_single_main_files(entries, from),
    ensures
        has_plain_directories(entries, from),
        writes(path, entries, from) == mirror(path, entries, from),
        writes(path, entries, from).len() == file_count(entries, from),
    decreases entries, entries.len() - from,
{
    if from < entries.len() {
        lemma_entry_of_single_main_files(path, entries[from as int]);
        lemma_tree_of_single_main_files(path, entries, from + 1);
    }
}

/// A tree of HTML files with one `main` element each is mirrored. The run
/// goes to its end; it lists the root and every directory of the tree; it
/// writes one file for every file of the tree, at the same relative path,
/// holding the inner markup of that file's `main` element; and the count is
/// the number of files of the tree.
pub proof fn lemma_single_main_tree_is_mirrored(root: Seq<SourceEntry>)
    requires
        holds_single_main_files(root, 0),
        file_count(root, 0) <= u32::MAX,
    ensures
        !run_tree(root, 0).halted,
        run_tree(root, 0).walk.finished(),
        run_tree(root, 0).walk.count == file_count(root, 0),
        run_tree(root, 0).listed == seq![Seq::<Seq<char>>::empty()] + directories(
            Seq::empty(),
            root,
            0,
        ),
        run_tree(root, 0).written == mirror(Seq::empty(), root, 0),
{
    lemma_tree_of_single_main_files(Seq::empty(), root, 0);
    lemma_run_follows_tree(root, 0);
}

proof fn lemma_writes_are_html(path: Seq<Seq<char>>, entries: Seq<SourceEntry>, from: nat)
    ensures
        forall|i: int|
            0 <= i < writes(path, entries, from).len() ==> is_html_write(
                #[trigger] writes(path, entries, from)[i],
            ),
    decreases entries, entries.len() - from,
{
    if from < entries.len() {
        let entry = entries[from as int];
        let all = writes(path, entries, from);
        let head = entry_writes(path, entry);
        let tail = writes(path, entries, from + 1);
        lemma_writes_are_html(path, entries, from + 1);
        assert forall|i: int| 0 <= i < head.len() implies is_html_write(#[trigger] head[i]) by {
            match entry.node {
                SourceNode::Directory(inside) => {
                    lemma_writes_are_html(path.push(entry.name), inside, 0);
                    assert(head[i] == writes(path.push(entry.name), inside, 0)[i]);
                },
                SourceNode::File(_) => {
                    assert(head[i].path == path.push(entry.name));
                },
            }
        }
        assert forall|i: int| 0 <= i < all.len() implies is_html_write(#[trigger] all[i]) by {
            if i < head.len() {
                assert(all[i] == head[i]);
            } else {
                assert(all[i] == tail[i - head.len()]);
            }
        }
    }
}

/// Only HTML files reach the destination: whatever the tree holds besides,
/// every file that a run to the end writes stands for an entry whose name
/// ends in `.html`.
pub proof fn lemma_only_html_files_are_written(root: Seq<SourceEntry>, count: nat)
    requires
        has_plain_directories(root, 0),
        count + writes(Seq::empty(), root, 0).len() <= u32::MAX,
    ensures
        forall|i: int|
            0 <= i < run_tree(root, count).written.len() ==> is_html_write(
                #[trigger] run_tree(root, count).written[i],
            ),
{
    lemma_run_follows_tree(root, count);
    lemma_writes_are_html(Seq::empty(), root, 0);
}

proof fn lemma_destination_after(
    before: Map<Seq<Seq<char>>, Seq<char>>,
    writes: Seq<Write>,
    path: Seq<Seq<char>>,
)
    ensures
        destination_after(before, writes).dom().contains(path) <==> last_write(writes, path)
            is Some || before.dom().contains(path),
        last_write(writes, path) matches Some(content) ==> destination_after(
            before,
            writes,
        )[path] == content,
        last_write(writes, path) is None ==> destination_after(before, writes)[path]
            == before[path],
    decreases writes.len(),
{
    if writes.len() > 0 {
        lemma_destination_after(before, writes.drop_last(), path);
    }
}

/// Writing the same files a second time changes nothing: a write replaces
/// and never appends.
pub proof fn lemma_repeated_writes_change_nothing(
    before: Map<Seq<Seq<char>>, Seq<char>>,
    writes: Seq<Write>,
)
    ensures
        destination_after(destination_after(before, writes), writes) == destination_after(
            before,
            writes,
        ),
{
    let once = destination_after(before, writes);
    let twice = destination_after(once, writes);
    assert forall|path: Seq<Seq<char>>| #[trigger]
        twice.dom().contains(path) == once.dom().contains(path) by {
        lemma_destination_after(before, writes, path);
        lemma_destination_after(once, writes, path);
    }
    assert forall|path: Seq<Seq<char>>| once.dom().contains(path) implies #[trigger] twice[path]
        == once[path] by {
        lemma_destination_after(before, writes, path);
        lemma_destination_after(once, writes, path);
    }
    assert(twice =~= once);
}

/// A second run over an unchanged tree leaves the destination as the first
/// run left it, file for file.
pub proof fn lemma_second_run_changes_nothing(
    root: Seq<SourceEntry>,
    before: Map<Seq<Seq<char>>, Seq<char>>,
)
    ensures
        destination_after(
            destination_after(before, run_tree(root, 0).written),
            run_tree(root, 0).written,
        ) == destination_after(before, run_tree(root, 0).written),
{
    lemma_repeated_writes_change_nothing(before, run_tree(root, 0).written);
}

} // verus!
