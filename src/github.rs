//! The repository side: repository paths, the files a diff changes, the text
//! of fetched files, and the choices made while paging through the API.
use crate::codeowners::insert_owner;
use crate::conditional::{insert_all, sorted_distinct};
use crate::pattern::split_segments;
use crate::pattern::split_on_slash;
use crate::text::{chars_of, chars_range, str_eq, string_of, strings_view};
use base64::Engine;
use vstd::prelude::*;
use vstd::utf8::{encode_utf8, valid_utf8};

verus! {

/// A repository named by its owner and its name.
#[derive(Debug, Clone)]
pub struct Repo {
    user: String,
    repo: String,
}

impl View for Repo {
    type V = (Seq<char>, Seq<char>);

    closed spec fn view(&self) -> (Seq<char>, Seq<char>) {
        (self.user@, self.repo@)
    }
}

#[verifier::external_type_specification]
#[verifier::external_body]
pub struct ExDecodeError(base64::DecodeError);

#[verifier::external_type_specification]
#[verifier::external_body]
pub struct ExFromUtf8Error(std::string::FromUtf8Error);

/// Why a repository path, a diff or a fetched file was refused.
#[derive(Debug)]
pub enum Error {
    /// The path is not of the form `user/repo`.
    InvalidPath(String),
    /// A file was asked for and none, or several, came back.
    GotMulticontent,
    /// The file came back without content.
    EmptyContents,
    /// A file name of a diff lacks its `a/` or `b/` prefix.
    InvalidDiffFile(String),
    /// No installation of the application belongs to this account.
    NoInstallationId(String),
    /// The content is not base64.
    Base64Decode(base64::DecodeError),
    /// The decoded content is not UTF-8.
    InvalidUtf8(std::string::FromUtf8Error),
}

impl Repo {
    pub fn new(user: String, repo: String) -> (r: Repo)
        ensures
            r@ == (user@, repo@),
    {
        Repo { user, repo }
    }

    /// Reads `user/repo`: exactly two `/`-separated parts, either of which may
    /// be empty; anything else is `InvalidPath` with the path.
    pub fn from_path(path: &str) -> (r: Result<Repo, Error>)
        ensures
            split_segments(path@).len() == 2 <==> r is Ok,
            r matches Ok(repo) ==> repo@ == (split_segments(path@)[0], split_segments(path@)[1]),
            split_segments(path@).len() != 2 ==> (r matches Err(Error::InvalidPath(p)) && p@
                == path@),
    {
        let chars = chars_of(path);
        let segments = split_on_slash(&chars);
        if segments.len() != 2 {
            return Err(Error::InvalidPath(string_of(&chars)));
        }
        Ok(Repo::new(string_of(&segments[0]), string_of(&segments[1])))
    }

    pub fn user(&self) -> (r: &str)
        ensures
            r@ == self@.0,
    {
        self.user.as_str()
    }

    pub fn repo(&self) -> (r: &str)
        ensures
            r@ == self@.1,
    {
        self.repo.as_str()
    }
}

/// The name without its diff prefix: `b/` for a target name, `a/` for a source
/// name; `None` when the prefix is missing.
pub open spec fn without_prefix(name: Seq<char>, is_target: bool) -> Option<Seq<char>> {
    let p = if is_target {
        'b'
    } else {
        'a'
    };
    if name.len() >= 2 && name[0] == p && name[1] == '/' {
        Some(name.skip(2))
    } else {
        None
    }
}

/// All names without their prefix, or the first name that lacks it.
pub open spec fn without_prefixes(names: Seq<Seq<char>>, is_target: bool) -> Result<
    Seq<Seq<char>>,
    Seq<char>,
>
    decreases names.len(),
{
    if names.len() == 0 {
        Ok(Seq::empty())
    } else {
        match without_prefixes(names.subrange(0, names.len() - 1), is_target) {
            Err(n) => Err(n),
            Ok(done) => match without_prefix(names[names.len() - 1], is_target) {
                None => Err(names[names.len() - 1]),
                Some(x) => Ok(done.push(x)),
            },
        }
    }
}

pub open spec fn pairs_view(v: Seq<(String, String)>) -> Seq<(Seq<char>, Seq<char>)> {
    v.map_values(|f: (String, String)| (f.0@, f.1@))
}

/// The files a diff changes, from its modified, added and removed files as
/// (source, target) names: the sources of modified and removed files and the
/// targets of modified and added files, without prefixes, distinct and in
/// ascending order; or the first name without its prefix.
pub open spec fn changed_files_of(
    modified: Seq<(Seq<char>, Seq<char>)>,
    added: Seq<(Seq<char>, Seq<char>)>,
    removed: Seq<(Seq<char>, Seq<char>)>,
) -> Result<Seq<Seq<char>>, Seq<char>> {
    let sources = (modified + removed).map_values(|f: (Seq<char>, Seq<char>)| f.0);
    let targets = (modified + added).map_values(|f: (Seq<char>, Seq<char>)| f.1);
    match without_prefixes(sources, false) {
        Err(n) => Err(n),
        Ok(a) => match without_prefixes(targets, true) {
            Err(n) => Err(n),
            Ok(b) => Ok(sorted_distinct(a + b)),
        },
    }
}

/// Strips the diff prefix of a file name: `b/` for a target, `a/` for a source.
pub fn remove_prefix(file: &str, is_target: bool) -> (r: Result<String, Error>)
    ensures
        match without_prefix(file@, is_target) {
            Some(n) => r matches Ok(s) && s@ == n,
            None => r matches Err(Error::InvalidDiffFile(f)) && f@ == file@,
        },
{
    let chars = chars_of(file);
    let p = if is_target {
        'b'
    } else {
        'a'
    };
    if chars.len() >= 2 && chars[0] == p && chars[1] == '/' {
        let rest = chars_range(&chars, 2, chars.len());
        assert(chars@.subrange(2, chars@.len() as int) == file@.skip(2));
        Ok(string_of(&rest))
    } else {
        Err(Error::InvalidDiffFile(string_of(&chars)))
    }
}

/// Strips the prefix of each name in turn, onto `out`.
fn strip_names(names: &Vec<String>, is_target: bool, out: &mut Vec<Vec<char>>) -> (r: Result<
    (),
    Error,
>)
    ensures
        match without_prefixes(strings_view(names@), is_target) {
            Ok(stripped) => r is Ok && final(out)@.map_values(|o: Vec<char>| o@) == insert_all(
                old(out)@.map_values(|o: Vec<char>| o@),
                stripped,
            ),
            Err(n) => r matches Err(Error::InvalidDiffFile(f)) && f@ == n,
        },
{
    let ghost v = strings_view(names@);
    let ghost start = out@.map_values(|o: Vec<char>| o@);
    let mut k: usize = 0;
    assert(v.take(0) == Seq::<Seq<char>>::empty());
    while k < names.len()
        invariant
            k <= names@.len(),
            v == strings_view(names@),
            without_prefixes(v.take(k as int), is_target) matches Ok(done) && out@.map_values(
                |o: Vec<char>| o@,
            ) == insert_all(start, done),
        decreases names@.len() - k,
    {
        assert(v.take(k + 1).subrange(0, k as int) == v.take(k as int));
        assert(v.take(k + 1)[k as int] == names@[k as int]@);
        match remove_prefix(names[k].as_str(), is_target) {
            Ok(stripped) => {
                let ghost done = without_prefixes(v.take(k as int), is_target)->Ok_0;
                let c = chars_of(stripped.as_str());
                insert_owner(out, c);
                assert(done.push(stripped@).subrange(0, done.len() as int) == done);
            },
            Err(e) => {
                proof {
                    lemma_without_prefixes_fails(v, is_target, k as int);
                }
                return Err(e);
            },
        }
        k = k + 1;
    }
    assert(v.take(names@.len() as int) == v);
    Ok(())
}

proof fn lemma_without_prefixes_fails(v: Seq<Seq<char>>, is_target: bool, k: int)
    requires
        0 <= k < v.len(),
        without_prefixes(v.take(k), is_target) is Ok,
        without_prefix(v[k], is_target) is None,
    ensures
        without_prefixes(v, is_target) == Err::<Seq<Seq<char>>, Seq<char>>(v[k]),
    decreases v.len() - k,
{
    assert(v.take(k + 1).subrange(0, k) == v.take(k));
    assert(without_prefixes(v.take(k + 1), is_target) == Err::<Seq<Seq<char>>, Seq<char>>(v[k]));
    lemma_without_prefixes_err_extends(v, is_target, k + 1, v[k]);
}

proof fn lemma_without_prefixes_err_extends(v: Seq<Seq<char>>, is_target: bool, n: int, e: Seq<char>)
    requires
        0 <= n <= v.len(),
        without_prefixes(v.take(n), is_target) == Err::<Seq<Seq<char>>, Seq<char>>(e),
    ensures
        without_prefixes(v, is_target) == Err::<Seq<Seq<char>>, Seq<char>>(e),
    decreases v.len() - n,
{
    if n < v.len() {
        assert(v.take(n + 1).subrange(0, n) == v.take(n));
        lemma_without_prefixes_err_extends(v, is_target, n + 1, e);
    } else {
        assert(v.take(n) == v);
    }
}

fn sources_and_targets(first: &Vec<(String, String)>, second: &Vec<(String, String)>, targets: bool) -> (r: Vec<String>)
    ensures
        strings_view(r@) == (pairs_view(first@) + pairs_view(second@)).map_values(
            |f: (Seq<char>, Seq<char>)| if targets {
                f.1
            } else {
                f.0
            },
        ),
{
    let ghost all = pairs_view(first@) + pairs_view(second@);
    let mut r: Vec<String> = Vec::new();
    let mut k: usize = 0;
    while k < first.len()
        invariant
            k <= first@.len(),
            all == pairs_view(first@) + pairs_view(second@),
            strings_view(r@) == all.take(k as int).map_values(
                |f: (Seq<char>, Seq<char>)| if targets {
                    f.1
                } else {
                    f.0
                },
            ),
        decreases first@.len() - k,
    {
        let name = if targets {
            first[k].1.clone()
        } else {
            first[k].0.clone()
        };
        let ghost before = r@;
        assert(all[k as int] == (first@[k as int].0@, first@[k as int].1@));
        r.push(name);
        assert(strings_view(r@) == strings_view(before).push(name@));
        assert(all.take(k + 1) == all.take(k as int).push(all[k as int]));
        k = k + 1;
    }
    let mut j: usize = 0;
    while j < second.len()
        invariant
            j <= second@.len(),
            first@.len() + j <= all.len(),
            all == pairs_view(first@) + pairs_view(second@),
            strings_view(r@) == all.take(first@.len() + j).map_values(
                |f: (Seq<char>, Seq<char>)| if targets {
                    f.1
                } else {
                    f.0
                },
            ),
        decreases second@.len() - j,
    {
        let name = if targets {
            second[j].1.clone()
        } else {
            second[j].0.clone()
        };
        let ghost before = r@;
        assert(all[first@.len() + j] == (second@[j as int].0@, second@[j as int].1@));
        r.push(name);
        assert(strings_view(r@) == strings_view(before).push(name@));
        assert(all.take(first@.len() + j + 1) == all.take(first@.len() + j).push(
            all[first@.len() + j],
        ));
        j = j + 1;
    }
    assert(all.take(first@.len() + second@.len() as int) == all);
    r
}

/// The files a diff changes, from the (source, target) names of its modified,
/// added and removed files: sources of modified and removed files, targets of
/// modified and added files, each without its `a/` or `b/` prefix, distinct and
/// in ascending order. The first name without its prefix is refused.
pub fn changed_files(
    modified: &Vec<(String, String)>,
    added: &Vec<(String, String)>,
    removed: &Vec<(String, String)>,
) -> (r: Result<Vec<String>, Error>)
    ensures
        match changed_files_of(pairs_view(modified@), pairs_view(added@), pairs_view(removed@)) {
            Ok(files) => r matches Ok(v) && strings_view(v@) == files,
            Err(n) => r matches Err(Error::InvalidDiffFile(f)) && f@ == n,
        },
{
    let sources = sources_and_targets(modified, removed, false);
    let targets = sources_and_targets(modified, added, true);
    let ghost m = pairs_view(modified@);
    assert(strings_view(sources@) == (m + pairs_view(removed@)).map_values(
        |f: (Seq<char>, Seq<char>)| f.0,
    ));
    assert(strings_view(targets@) == (m + pairs_view(added@)).map_values(
        |f: (Seq<char>, Seq<char>)| f.1,
    ));
    let mut found: Vec<Vec<char>> = Vec::new();
    assert(found@.map_values(|o: Vec<char>| o@) == Seq::<Seq<char>>::empty());
    match strip_names(&sources, false, &mut found) {
        Ok(()) => {},
        Err(e) => {
            return Err(e);
        },
    }
    let ghost a = without_prefixes(strings_view(sources@), false)->Ok_0;
    match strip_names(&targets, true, &mut found) {
        Ok(()) => {},
        Err(e) => {
            return Err(e);
        },
    }
    let ghost b = without_prefixes(strings_view(targets@), true)->Ok_0;
    proof {
        lemma_insert_all_concat(Seq::empty(), a, b);
    }
    let mut out: Vec<String> = Vec::new();
    let mut k: usize = 0;
    while k < found.len()
        invariant
            k <= found@.len(),
            strings_view(out@) == found@.map_values(|o: Vec<char>| o@).take(k as int),
        decreases found@.len() - k,
    {
        out.push(string_of(&found[k]));
        assert(found@.map_values(|o: Vec<char>| o@).take(k + 1) == found@.map_values(
            |o: Vec<char>| o@,
        ).take(k as int).push(found@[k as int]@));
        k = k + 1;
    }
    assert(found@.map_values(|o: Vec<char>| o@).take(found@.len() as int) == found@.map_values(
        |o: Vec<char>| o@,
    ));
    Ok(out)
}

proof fn lemma_insert_all_concat(base: Seq<Seq<char>>, a: Seq<Seq<char>>, b: Seq<Seq<char>>)
    ensures
        insert_all(insert_all(base, a), b) == insert_all(base, a + b),
    decreases b.len(),
{
    if b.len() > 0 {
        let front = b.subrange(0, b.len() - 1);
        lemma_insert_all_concat(base, a, front);
        assert((a + b).subrange(0, a.len() + b.len() - 1) == a + front);
    } else {
        assert(a + b == a);
    }
}

/// What the standard base64 alphabet, with padding, decodes a text to; `None`
/// when the text is not such base64.
pub uninterp spec fn base64_decoded(s: Seq<char>) -> Option<Seq<u8>>;

/// Relies on `base64::engine::general_purpose::STANDARD.decode`: the bytes
/// that the text encodes, or an error when it is not valid base64; the outcome
/// depends on the text alone.
#[verifier::external_body]
fn decode_base64(s: &str) -> (r: Result<Vec<u8>, base64::DecodeError>)
    ensures
        r is Ok <==> base64_decoded(s@) is Some,
        r matches Ok(b) ==> base64_decoded(s@) == Some(b@),
{
    base64::engine::general_purpose::STANDARD.decode(s)
}

/// Relies on `String::from_utf8`: it succeeds exactly on valid UTF-8, and the
/// string then holds exactly these bytes.
#[verifier::external_body]
fn string_from_utf8(b: Vec<u8>) -> (r: Result<String, std::string::FromUtf8Error>)
    ensures
        r is Ok <==> valid_utf8(b@),
        r matches Ok(s) ==> encode_utf8(s@) == b@,
{
    String::from_utf8(b)
}

/// The characters of `s` without its line breaks.
pub open spec fn without_line_breaks(s: Seq<char>) -> Seq<char>
    decreases s.len(),
{
    if s.len() == 0 {
        Seq::empty()
    } else if s[s.len() - 1] == '\n' {
        without_line_breaks(s.subrange(0, s.len() - 1))
    } else {
        without_line_breaks(s.subrange(0, s.len() - 1)).push(s[s.len() - 1])
    }
}

/// Removes the line breaks of a text.
pub fn strip_line_breaks(s: &str) -> (r: String)
    ensures
        r@ == without_line_breaks(s@),
{
    let chars = chars_of(s);
    let mut out = String::new();
    let mut k: usize = 0;
    assert(chars@.take(0) == Seq::<char>::empty());
    while k < chars.len()
        invariant
            k <= chars@.len(),
            out@ == without_line_breaks(chars@.take(k as int)),
        decreases chars@.len() - k,
    {
        assert(chars@.take(k + 1).subrange(0, k as int) == chars@.take(k as int));
        if chars[k] != '\n' {
            crate::text::push_char(&mut out, chars[k]);
        }
        k = k + 1;
    }
    assert(chars@.take(chars@.len() as int) == chars@);
    out
}

/// The text of a file fetched as content items: exactly one item must come
/// back (else `GotMulticontent`), with content (else `EmptyContents`); the
/// content is base64 with line breaks (else `Base64Decode`), of UTF-8 text
/// (else `InvalidUtf8`).
pub fn file_text(contents: Vec<Option<String>>) -> (r: Result<String, Error>)
    ensures
        contents@.len() != 1 <==> (r is Err && r->Err_0 is GotMulticontent),
        (contents@.len() == 1 && contents@[0] is None) <==> (r is Err && r->Err_0 is EmptyContents),
        (contents@.len() == 1 && contents@[0] is Some) ==> {
            let decoded = base64_decoded(without_line_breaks(contents@[0]->Some_0@));
            &&& decoded is None <==> (r is Err && r->Err_0 is Base64Decode)
            &&& decoded is Some ==> (r is Ok <==> valid_utf8(decoded->Some_0))
            &&& decoded is Some ==> (r is Ok || (r is Err && r->Err_0 is InvalidUtf8))
            &&& r is Ok ==> decoded == Some(encode_utf8(r->Ok_0@))
        },
{
    if contents.len() != 1 {
        return Err(Error::GotMulticontent);
    }
    let raw = match &contents[0] {
        Some(t) => strip_line_breaks(t.as_str()),
        None => {
            return Err(Error::EmptyContents);
        },
    };
    let bytes = match decode_base64(raw.as_str()) {
        Ok(b) => b,
        Err(e) => {
            return Err(Error::Base64Decode(e));
        },
    };
    match string_from_utf8(bytes) {
        Ok(text) => Ok(text),
        Err(e) => Err(Error::InvalidUtf8(e)),
    }
}

/// The first position whose login is `login`, if any: the comment of the
/// application's own account, or the installation of an account.
pub fn position_of_login(logins: &Vec<String>, login: &str) -> (r: Option<usize>)
    ensures
        match r {
            Some(i) => i < logins@.len() && logins@[i as int]@ == login@ && forall|j: int|
                0 <= j < i ==> #[trigger] logins@[j]@ != login@,
            None => forall|j: int| 0 <= j < logins@.len() ==> #[trigger] logins@[j]@ != login@,
        },
{
    let mut k: usize = 0;
    while k < logins.len()
        invariant
            k <= logins@.len(),
            forall|j: int| 0 <= j < k ==> #[trigger] logins@[j]@ != login@,
        decreases logins@.len() - k,
    {
        if str_eq(logins[k].as_str(), login) {
            return Some(k);
        }
        k = k + 1;
    }
    None
}

/// The page to fetch after page `page` brought `items` items: none after an
/// empty page (or past the last page number), else the next one.
pub fn next_page(page: u32, items: usize) -> (r: Option<u32>)
    ensures
        items == 0 || page == u32::MAX <==> r is None,
        r matches Some(p) ==> p == page + 1,
{
    if items == 0 || page == u32::MAX {
        None
    } else {
        Some(page + 1)
    }
}

} // verus!
