//! File names and paths as character sequences, following the rules that
//! `std::path::Path` applies on Unix-like systems.
use vstd::prelude::*;
use vstd::string::StrSliceExecFns;
use vstd::string::StringExecFns;

verus! {

/// Position of the last '.' in `name`, or -1 when it holds none.
pub open spec fn last_dot(name: Seq<char>) -> int
    decreases name.len(),
{
    if name.len() == 0 {
        -1
    } else if name.last() == '.' {
        name.len() - 1
    } else {
        last_dot(name.drop_last())
    }
}

/// The extension of a file name, as `Path::extension` reads it: what follows
/// the last '.', unless that dot opens the name; a name `..` has none.
pub open spec fn extension_of(name: Seq<char>) -> Option<Seq<char>> {
    if name =~= seq!['.', '.'] || last_dot(name) <= 0 {
        None
    } else {
        Some(name.subrange(last_dot(name) + 1, name.len() as int))
    }
}

/// The stem of a file name, as `Path::file_stem` reads it: the name without
/// its extension and the dot before it.
pub open spec fn stem_of(name: Seq<char>) -> Option<Seq<char>> {
    if name.len() == 0 {
        None
    } else if extension_of(name) is None {
        Some(name)
    } else {
        Some(name.subrange(0, last_dot(name)))
    }
}

/// `base` joined with `tail` as `Path::join` does it: an absolute `tail`
/// replaces `base`; otherwise a separator goes between them unless `base` is
/// empty or already ends in one.
pub open spec fn joined(base: Seq<char>, tail: Seq<char>) -> Seq<char> {
    if tail.len() > 0 && tail[0] == '/' {
        tail
    } else if base.len() > 0 && base.last() != '/' {
        base + seq!['/'] + tail
    } else {
        base + tail
    }
}

pub proof fn lemma_last_dot_bounds(name: Seq<char>)
    ensures
        -1 <= last_dot(name) < name.len(),
        last_dot(name) >= 0 ==> name[last_dot(name)] == '.',
        forall|j: int| last_dot(name) < j < name.len() ==> name[j] != '.',
    decreases name.len(),
{
    if name.len() > 0 && name.last() != '.' {
        lemma_last_dot_bounds(name.drop_last());
        assert forall|j: int| last_dot(name) < j < name.len() implies name[j] != '.' by {
            if j < name.len() - 1 {
                assert(name[j] == name.drop_last()[j]);
            }
        }
    }
}

/// Where the last '.' of `name` stands, if anywhere.
fn find_last_dot(name: &str) -> (r: Option<usize>)
    ensures
        match r {
            None => last_dot(name@) == -1,
            Some(i) => i == last_dot(name@),
        },
{
    let n = name.unicode_len();
    let mut i: usize = n;
    assert(name@.subrange(0, n as int) =~= name@);
    while i > 0
        invariant
            i <= n,
            n == name@.len(),
            last_dot(name@) == last_dot(name@.subrange(0, i as int)),
        decreases i,
    {
        if name.get_char(i - 1) == '.' {
            return Some(i - 1);
        }
        assert(name@.subrange(0, i as int).drop_last() =~= name@.subrange(0, i - 1));
        i = i - 1;
    }
    None
}

/// Whether the name is `..`.
fn is_parent_name(name: &str) -> (r: bool)
    ensures
        r == (name@ =~= seq!['.', '.']),
{
    let n = name.unicode_len();
    if n == 2 && name.get_char(0) == '.' && name.get_char(1) == '.' {
        assert(name@ =~= seq!['.', '.']);
        true
    } else {
        false
    }
}

/// Whether two strings hold the same characters.
pub fn same_text(a: &str, b: &str) -> (r: bool)
    ensures
        r == (a@ == b@),
{
    let n = a.unicode_len();
    if n != b.unicode_len() {
        return false;
    }
    let mut i: usize = 0;
    while i < n
        invariant
            i <= n,
            n == a@.len(),
            n == b@.len(),
            forall|j: int| 0 <= j < i ==> a@[j] == b@[j],
        decreases n - i,
    {
        if a.get_char(i) != b.get_char(i) {
            return false;
        }
        i = i + 1;
    }
    assert(a@ =~= b@);
    true
}

/// The extension of a file name, or `None` where `Path::extension` finds none.
pub fn file_extension(name: &str) -> (r: Option<&str>)
    ensures
        match r {
            None => extension_of(name@) is None,
            Some(e) => extension_of(name@) == Some(e@),
        },
{
    proof {
        lemma_last_dot_bounds(name@);
    }
    let n = name.unicode_len();
    if is_parent_name(name) {
        return None;
    }
    match find_last_dot(name) {
        Some(d) => {
            if d == 0 {
                None
            } else {
                Some(name.substring_char(d + 1, n))
            }
        },
        None => None,
    }
}

/// The stem of a file name, or `None` where `Path::file_stem` finds none.
pub fn file_stem(name: &str) -> (r: Option<&str>)
    ensures
        match r {
            None => stem_of(name@) is None,
            Some(s) => stem_of(name@) == Some(s@),
        },
{
    proof {
        lemma_last_dot_bounds(name@);
    }
    if name.unicode_len() == 0 {
        return None;
    }
    if is_parent_name(name) {
        return Some(name);
    }
    match find_last_dot(name) {
        Some(d) => {
            if d == 0 {
                Some(name)
            } else {
                Some(name.substring_char(0, d))
            }
        },
        None => Some(name),
    }
}

/// `base` joined with `tail`, as [`joined`] describes.
pub fn join(base: &str, tail: &str) -> (r: String)
    ensures
        r@ == joined(base@, tail@),
{
    if tail.unicode_len() > 0 && tail.get_char(0) == '/' {
        return String::from_str(tail);
    }
    let mut r = String::from_str(base);
    let base_len = base.unicode_len();
    if base_len > 0 && base.get_char(base_len - 1) != '/' {
        r.append("/");
        proof {
            reveal_strlit("/");
        }
    }
    r.append(tail);
    r
}

} // verus!
