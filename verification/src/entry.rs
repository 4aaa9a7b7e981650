//! One entry of a directory listing, and the test on its name that decides
//! whether a fragment is extracted from it.

use vstd::prelude::*;

verus! {

/// An entry as a listing gives it: its name inside the directory, and
/// whether it is a directory.
#[derive(Debug, Clone, PartialEq, Eq)]
pub struct DirEntry {
    pub name: String,
    pub is_dir: bool,
}

/// A [`DirEntry`] with its name as text.
pub struct EntryView {
    pub name: Seq<char>,
    pub is_dir: bool,
}

impl View for DirEntry {
    type V = EntryView;

    open spec fn view(&self) -> EntryView {
        EntryView { name: self.name@, is_dir: self.is_dir }
    }
}

/// The entries of a listing, each by its view.
pub open spec fn entry_views(entries: Seq<DirEntry>) -> Seq<EntryView> {
    entries.map_values(|e: DirEntry| e@)
}

/// The suffix that marks a name as that of an HTML file: `.html`, in lower
/// case.
pub open spec fn html_suffix() -> Seq<char> {
    seq!['.', 'h', 't', 'm', 'l']
}

/// Whether `name` ends in `.html`. Case counts, and the name `.html` itself
/// qualifies.
pub open spec fn has_html_suffix(name: Seq<char>) -> bool {
    html_suffix().is_suffix_of(name)
}

/// Tests whether `name` ends in `.html`.
pub fn ends_with_html(name: &str) -> (yes: bool)
    ensures
        yes == has_html_suffix(name@),
{
    let len: usize = name.unicode_len();
    if len < 5 {
        return false;
    }
    let start: usize = len - 5;
    let yes = name.get_char(start) == '.' && name.get_char(start + 1) == 'h' && name.get_char(
        start + 2,
    ) == 't' && name.get_char(start + 3) == 'm' && name.get_char(start + 4) == 'l';
    proof {
        let tail = name@.subrange(start as int, len as int);
        assert(tail.len() == 5);
        assert(tail[0] == name@[start as int]);
        assert(tail[1] == name@[start + 1]);
        assert(tail[2] == name@[start + 2]);
        assert(tail[3] == name@[start + 3]);
        assert(tail[4] == name@[start + 4]);
        if yes {
            assert(html_suffix() =~= tail);
        } else {
            assert(html_suffix() != tail);
        }
    }
    yes
}

} // verus!
