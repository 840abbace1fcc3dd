//! Code ownership: parsing an ownership-rule file, resolving the
//! owners of changed files, and reducing the combined approval requirement.
use vstd::prelude::*;
use vstd::string::StringExecFns;

pub mod codeowners;
pub mod conditional;
pub mod daemon;
pub mod github;
pub mod pattern;
pub mod text;

use codeowners::CodeOwners;
use conditional::{entries_view, owners_map_of, paths_view, to_owners_map};

verus! {

/// One list item per owner.
pub open spec fn owner_lines(os: Seq<Seq<char>>) -> Seq<char>
    decreases os.len(),
{
    if os.len() == 0 {
        Seq::empty()
    } else {
        owner_lines(os.subrange(0, os.len() - 1)) + "<li>"@ + os[os.len() - 1] + "</li>"@
    }
}

/// The list item of one file: its path, then its owners as a nested list
/// when it has any.
pub open spec fn file_item(e: (Seq<char>, Option<Seq<Seq<char>>>)) -> Seq<char> {
    let nested = match e.1 {
        Some(os) => if os.len() > 0 {
            "<ul>"@ + owner_lines(os) + "</ul>"@
        } else {
            Seq::empty()
        },
        None => Seq::empty(),
    };
    "<li><code>"@ + e.0 + "</code>"@ + nested + "</li>"@
}

pub open spec fn file_items(m: Seq<(Seq<char>, Option<Seq<Seq<char>>>)>) -> Seq<char>
    decreases m.len(),
{
    if m.len() == 0 {
        Seq::empty()
    } else {
        file_items(m.subrange(0, m.len() - 1)) + file_item(m[m.len() - 1])
    }
}

/// The per-file report: an HTML list of the distinct paths in ascending order,
/// each with the owners the rules give it.
pub open spec fn file_owners_report(
    rules: Seq<codeowners::RuleModel>,
    files: Seq<Seq<char>>,
) -> Seq<char> {
    "<ul>"@ + file_items(owners_map_of(rules, files)) + "</ul>"@
}

/// The per-file ownership report of the changed files, as an HTML list.
pub fn display_file_owners(codeowners: &CodeOwners, files: &[&str]) -> (r: String)
    ensures
        r@ == file_owners_report(codeowners@, paths_view(files@)),
{
    let owners_map = to_owners_map(codeowners, files);
    let ghost m = entries_view(owners_map@);
    let mut display_str = String::new();
    display_str.append("<ul>");
    let mut k: usize = 0;
    assert(m.take(0) == Seq::<(Seq<char>, Option<Seq<Seq<char>>>)>::empty());
    assert(display_str@ == "<ul>"@ + file_items(m.take(0)));
    while k < owners_map.len()
        invariant
            k <= owners_map@.len(),
            m == entries_view(owners_map@),
            display_str@ == "<ul>"@ + file_items(m.take(k as int)),
        decreases owners_map@.len() - k,
    {
        let ghost before = display_str@;
        assert(m.take(k + 1).subrange(0, k as int) == m.take(k as int));
        assert(m.take(k + 1)[k as int] == m[k as int]);
        let (file, owners) = &owners_map[k];
        display_str.append("<li><code>");
        display_str.append(file.as_str());
        display_str.append("</code>");
        let ghost mid = display_str@;
        let ghost nested: Seq<char> = Seq::empty();
        match owners {
            Some(os) => {
                if os.len() > 0 {
                    display_str.append("<ul>");
                    let mut j: usize = 0;
                    let ghost names = crate::text::strings_view(os@);
                    assert(names.take(0) == Seq::<Seq<char>>::empty());
                    assert(display_str@ == mid + "<ul>"@ + owner_lines(names.take(0)));
                    while j < os.len()
                        invariant
                            j <= os@.len(),
                            names == crate::text::strings_view(os@),
                            display_str@ == mid + "<ul>"@ + owner_lines(names.take(j as int)),
                        decreases os@.len() - j,
                    {
                        assert(names.take(j + 1).subrange(0, j as int) == names.take(j as int));
                        assert(names.take(j + 1)[j as int] == os@[j as int]@);
                        display_str.append("<li>");
                        display_str.append(os[j].as_str());
                        display_str.append("</li>");
                        j = j + 1;
                    }
                    assert(names.take(os@.len() as int) == names);
                    display_str.append("</ul>");
                    proof {
                        nested = "<ul>"@ + owner_lines(names) + "</ul>"@;
                    }
                }
            },
            None => {},
        }
        assert(display_str@ == mid + nested);
        display_str.append("</li>");
        assert(display_str@ == before + file_item(m[k as int]));
        k = k + 1;
    }
    assert(m.take(owners_map@.len() as int) == m);
    display_str.append("</ul>");
    display_str
}

} // verus!
