//! Generates a source fragment that embeds the files of one directory, by
//! stem, in a static map of byte slices.
//!
//! The library decides everything about the fragment: where it goes, which
//! directory entries it takes and what text it holds. Reading the working
//! directory and the entry names, and writing the file, are left to the
//! caller, which hands the results in as strings.
use vstd::prelude::*;
use vstd::string::StringExecFns;

pub mod fragment;
pub mod path;

use crate::fragment::{
    entries_text,
    fragment_text,
    insert_line,
    OUTPUT_FILE_NAME,
    TEMPLATE_HEAD,
    TEMPLATE_TAIL,
};
use crate::path::{extension_of, file_extension, file_stem, join, joined, same_text, stem_of};

verus! {

/// What an [`IncludeFiles`] holds: the directory scanned, the extension
/// taken, and the directory that receives the fragment.
pub struct IncludeFilesView {
    pub input: Seq<char>,
    pub extension: Seq<char>,
    pub output: Seq<char>,
}

/// The stem under which an entry named `name` is embedded, if its extension
/// is exactly `ext`.
pub open spec fn matched_stem(name: Seq<char>, ext: Seq<char>) -> Option<Seq<char>> {
    if extension_of(name) == Some(ext) {
        stem_of(name)
    } else {
        None
    }
}

/// The stems of the entries whose extension is exactly `ext`, in the order
/// of the entries.
pub open spec fn matched_stems(names: Seq<Seq<char>>, ext: Seq<char>) -> Seq<Seq<char>>
    decreases names.len(),
{
    if names.len() == 0 {
        Seq::empty()
    } else {
        let rest = matched_stems(names.drop_last(), ext);
        match matched_stem(names.last(), ext) {
            Some(s) => rest.push(s),
            None => rest,
        }
    }
}

/// The names of a list of directory entries.
pub open spec fn names_of(names: Seq<String>) -> Seq<Seq<char>> {
    names.map_values(|n: String| n@)
}

/// Embeds the files of one directory that carry one extension.
#[derive(Debug, Clone)]
pub struct IncludeFiles {
    input: String,
    output: String,
    extension: &'static str,
}

impl View for IncludeFiles {
    type V = IncludeFilesView;

    closed spec fn view(&self) -> IncludeFilesView {
        IncludeFilesView { input: self.input@, extension: self.extension@, output: self.output@ }
    }
}

impl IncludeFiles {
    /// Takes the three settings as they are, without looking at the disk.
    pub fn new(input_dir: &str, extension: &'static str, output_dir: &str) -> (r: Self)
        ensures
            r@ == (IncludeFilesView {
                input: input_dir@,
                extension: extension@,
                output: output_dir@,
            }),
    {
        IncludeFiles {
            input: String::from_str(input_dir),
            output: String::from_str(output_dir),
            extension,
        }
    }

    /// The directory whose entries are scanned.
    pub fn input_dir(&self) -> (r: &str)
        ensures
            r@ == self@.input,
    {
        self.input.as_str()
    }

    /// The directory, relative to the working directory unless absolute,
    /// that receives the fragment.
    pub fn output_dir(&self) -> (r: &str)
        ensures
            r@ == self@.output,
    {
        self.output.as_str()
    }

    /// The extension that an entry must carry to be embedded.
    pub fn extension(&self) -> (r: &'static str)
        ensures
            r@ == self@.extension,
    {
        self.extension
    }

    /// Where the fragment is written, given the working directory `cur`.
    pub fn output_path(&self, cur: &str) -> (r: String)
        ensures
            r@ == joined(joined(cur@, self@.output), OUTPUT_FILE_NAME@),
    {
        let dir = join(cur, self.output.as_str());
        join(dir.as_str(), OUTPUT_FILE_NAME)
    }

    /// The stem under which the entry `name` is embedded, or `None` where it
    /// is skipped.
    pub fn entry_stem<'a>(&self, name: &'a str) -> (r: Option<&'a str>)
        ensures
            match r {
                Some(s) => matched_stem(name@, self@.extension) == Some(s@),
                None => matched_stem(name@, self@.extension) is None,
            },
    {
        match file_extension(name) {
            Some(ext) => {
                if same_text(ext, self.extension) {
                    file_stem(name)
                } else {
                    None
                }
            },
            None => None,
        }
    }

    /// The fragment for a directory whose entries are named `names`, the
    /// working directory being `cur`: one insertion statement for each entry
    /// that carries the extension, in the order of `names`.
    pub fn generate(&self, cur: &str, names: &Vec<String>) -> (r: String)
        ensures
            r@ == fragment_text(cur@, matched_stems(names_of(names@), self@.extension), self@.extension),
    {
        let ghost ext = self@.extension;
        let ghost all = names_of(names@);
        let mut r = String::from_str(TEMPLATE_HEAD);
        let mut i: usize = 0;
        assert(all.subrange(0, 0) =~= Seq::<Seq<char>>::empty());
        while i < names.len()
            invariant
                i <= names.len(),
                ext == self@.extension,
                all == names_of(names@),
                all.len() == names@.len(),
                r@ == TEMPLATE_HEAD@ + entries_text(cur@, matched_stems(all.subrange(0, i as int), ext), ext),
            decreases names.len() - i,
        {
            let name = names[i].as_str();
            assert(all.subrange(0, i + 1).drop_last() =~= all.subrange(0, i as int));
            assert(all.subrange(0, i + 1).last() == name@);
            match self.entry_stem(name) {
                Some(stem) => {
                    let line = insert_line(cur, stem, self.extension);
                    r.append(line.as_str());
                    proof {
                        let before = matched_stems(all.subrange(0, i as int), ext);
                        assert(before.push(stem@).drop_last() =~= before);
                    }
                },
                None => {},
            }
            i = i + 1;
        }
        assert(all.subrange(0, names.len() as int) =~= all);
        r.append(TEMPLATE_TAIL);
        r
    }
}

/// An entry that carries the extension `ext` is named by its stem, a dot and
/// `ext`, and its stem is not empty.
pub proof fn lemma_matched_name_parts(name: Seq<char>, ext: Seq<char>)
    requires
        extension_of(name) == Some(ext),
    ensures
        matched_stem(name, ext) is Some,
        matched_stem(name, ext).unwrap().len() > 0,
        name =~= matched_stem(name, ext).unwrap() + seq!['.'] + ext,
{
    crate::path::lemma_last_dot_bounds(name);
}

/// The map's keys are exactly the stems of the entries whose extension is
/// the configured one, each of them non-empty; no other entry gives a key.
pub proof fn lemma_keys_are_matching_stems(names: Seq<Seq<char>>, ext: Seq<char>)
    ensures
        forall|k: Seq<char>|
            matched_stems(names, ext).contains(k) <==> exists|i: int|
                0 <= i < names.len() && extension_of(#[trigger] names[i]) == Some(ext)
                    && stem_of(names[i]) == Some(k),
        forall|k: Seq<char>| matched_stems(names, ext).contains(k) ==> k.len() > 0,
    decreases names.len(),
{
    if names.len() > 0 {
        let init = names.drop_last();
        let rest = matched_stems(init, ext);
        lemma_keys_are_matching_stems(init, ext);
        if extension_of(names.last()) == Some(ext) {
            lemma_matched_name_parts(names.last(), ext);
        }
        assert forall|k: Seq<char>| matched_stems(names, ext).contains(k) implies k.len() > 0 by {
            if !rest.contains(k) {
                let all = matched_stems(names, ext);
                let j = choose|j: int| 0 <= j < all.len() && all[j] == k;
                if j < rest.len() {
                    assert(rest[j] == k);
                }
            }
        }
        assert forall|k: Seq<char>|
            matched_stems(names, ext).contains(k) <==> exists|i: int|
                0 <= i < names.len() && extension_of(#[trigger] names[i]) == Some(ext)
                    && stem_of(names[i]) == Some(k) by {
            if matched_stems(names, ext).contains(k) {
                if rest.contains(k) {
                    let i = choose|i: int|
                        0 <= i < init.len() && extension_of(#[trigger] init[i]) == Some(ext)
                            && stem_of(init[i]) == Some(k);
                    assert(names[i] == init[i]);
                } else {
                    let j = matched_stems(names, ext).index_of(k);
                    assert(names[names.len() - 1] == names.last());
                }
            }
            if exists|i: int|
                0 <= i < names.len() && extension_of(#[trigger] names[i]) == Some(ext)
                    && stem_of(names[i]) == Some(k) {
                let i = choose|i: int|
                    0 <= i < names.len() && extension_of(#[trigger] names[i]) == Some(ext)
                        && stem_of(names[i]) == Some(k);
                if i < names.len() - 1 {
                    assert(init[i] == names[i]);
                    assert(rest.contains(k));
                    let j = rest.index_of(k);
                    if matched_stem(names.last(), ext) is Some {
                        assert(matched_stems(names, ext)[j] == k);
                    }
                } else {
                    assert(matched_stems(names, ext).last() == k);
                }
            }
        }
    }
}

/// Entries with distinct names give distinct keys.
pub proof fn lemma_keys_distinct(names: Seq<Seq<char>>, ext: Seq<char>)
    requires
        names.no_duplicates(),
    ensures
        matched_stems(names, ext).no_duplicates(),
    decreases names.len(),
{
    if names.len() > 0 {
        let init = names.drop_last();
        let rest = matched_stems(init, ext);
        assert(init.no_duplicates());
        lemma_keys_distinct(init, ext);
        lemma_keys_are_matching_stems(init, ext);
        if extension_of(names.last()) == Some(ext) {
            let s = matched_stem(names.last(), ext).unwrap();
            lemma_matched_name_parts(names.last(), ext);
            if rest.contains(s) {
                let i = choose|i: int|
                    0 <= i < init.len() && extension_of(#[trigger] init[i]) == Some(ext)
                        && stem_of(init[i]) == Some(s);
                lemma_matched_name_parts(init[i], ext);
                assert(names[i] == names[names.len() - 1]);
            }
            assert(matched_stems(names, ext) == rest.push(s));
            assert forall|a: int, b: int|
                0 <= a < b < rest.len() + 1 implies rest.push(s)[a] != rest.push(s)[b] by {
                if b == rest.len() {
                    assert(rest.contains(rest[a]));
                }
            }
        }
    }
}

/// Where no entry carries the extension, the map has no entry and the
/// fragment is the bare template.
pub proof fn lemma_no_match_gives_empty_map(cur: Seq<char>, names: Seq<Seq<char>>, ext: Seq<char>)
    requires
        forall|i: int| 0 <= i < names.len() ==> extension_of(#[trigger] names[i]) != Some(ext),
    ensures
        matched_stems(names, ext).len() == 0,
        fragment_text(cur, matched_stems(names, ext), ext) == TEMPLATE_HEAD@ + TEMPLATE_TAIL@,
    decreases names.len(),
{
    if names.len() > 0 {
        let init = names.drop_last();
        assert forall|i: int| 0 <= i < init.len() implies extension_of(#[trigger] init[i]) != Some(
            ext,
        ) by {
            assert(init[i] == names[i]);
        }
        lemma_no_match_gives_empty_map(cur, init, ext);
        assert(names.last() == names[names.len() - 1]);
    }
    assert(TEMPLATE_HEAD@ + Seq::<char>::empty() =~= TEMPLATE_HEAD@);
}

/// The fragment and its path are functions of the settings, the working
/// directory and the entry names alone: the same inputs give the same text.
pub proof fn lemma_same_inputs_same_output(
    a: IncludeFiles,
    b: IncludeFiles,
    cur: Seq<char>,
    names: Seq<Seq<char>>,
)
    requires
        a@ == b@,
    ensures
        fragment_text(cur, matched_stems(names, a@.extension), a@.extension) == fragment_text(
            cur,
            matched_stems(names, b@.extension),
            b@.extension,
        ),
        joined(joined(cur, a@.output), OUTPUT_FILE_NAME@) == joined(
            joined(cur, b@.output),
            OUTPUT_FILE_NAME@,
        ),
{
}

/// Two entries of one stem of which only one carries the extension give one
/// key, whichever comes first.
pub proof fn lemma_stem_collision(a: Seq<char>, b: Seq<char>, ext: Seq<char>)
    requires
        stem_of(a) == stem_of(b),
        extension_of(a) == Some(ext),
        extension_of(b) != Some(ext),
    ensures
        matched_stems(seq![a, b], ext) == seq![stem_of(a).unwrap()],
        matched_stems(seq![b, a], ext) == seq![stem_of(a).unwrap()],
{
    lemma_matched_name_parts(a, ext);
    let s = stem_of(a).unwrap();
    let none = Seq::<Seq<char>>::empty();
    assert(seq![a].drop_last() =~= none);
    assert(seq![b].drop_last() =~= none);
    assert(matched_stems(none, ext) == none);
    assert(matched_stem(a, ext) == Some(s));
    assert(matched_stem(b, ext) is None);
    assert(seq![a].last() == a);
    assert(seq![b].last() == b);
    assert(seq![a, b].last() == b);
    assert(seq![b, a].last() == a);
    assert(matched_stems(seq![a], ext) == none.push(s));
    assert(matched_stems(seq![b], ext) == none);
    assert(seq![a, b].drop_last() =~= seq![a]);
    assert(seq![b, a].drop_last() =~= seq![b]);
    assert(matched_stems(seq![a, b], ext) == none.push(s));
    assert(matched_stems(seq![b, a], ext) == none.push(s));
    assert(none.push(s) =~= seq![s]);
}

} // verus!
