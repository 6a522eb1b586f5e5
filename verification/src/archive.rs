//! Paths and ZIP archives: which request path is a ZIP, which extracted file
//! is the schematic, and which entry a saved file replaces.
//!
//! Case is ignored the way `str::to_lowercase` followed by `ends_with` does
//! for the ASCII suffixes `.zip` and `.txt`: no character outside ASCII
//! lower-cases to `.`, `p`, `t`, `x` or `z`, and the one that lower-cases to
//! `i` is followed by a combining mark.
use vstd::prelude::*;
use crate::text::{Text, starts_with, ends_with, ci_ends_with, chars_of, starts_with_lit, ci_ends_with_lit, string_of};

verus! {

/// `p` without a leading `file://`.
pub open spec fn strip_file_scheme_spec(p: Text) -> Text {
    if starts_with(p, "file://"@) {
        p.skip("file://"@.len() as int)
    } else {
        p
    }
}

pub fn strip_file_scheme(p: &str) -> (r: String)
    ensures
        r@ == strip_file_scheme_spec(p@),
{
    let v = chars_of(p);
    if starts_with_lit(&v, "file://") {
        let k = "file://".unicode_len();
        let r = string_of(&v, k, v.len());
        assert(v@.subrange(k as int, v.len() as int) =~= v@.skip(k as int));
        r
    } else {
        String::from_str(p)
    }
}

/// The path names a ZIP archive: it ends with `.zip` in any ASCII case.
pub fn is_zip_path(p: &str) -> (b: bool)
    ensures
        b == ci_ends_with(p@, ".zip"@),
{
    ci_ends_with_lit(&chars_of(p), ".zip")
}

/// A ZIP entry whose name ends with `/` is a directory.
pub fn is_directory_entry(name: &str) -> (b: bool)
    ensures
        b == ends_with(name@, "/"@),
{
    let v = chars_of(name);
    proof {
        reveal_strlit("/");
    }
    if v.len() == 0 {
        return false;
    }
    let b = v[v.len() - 1] == '/';
    assert(b == (v@.skip(v.len() - 1) =~= "/"@)) by {
        if b {
            assert(v@.skip(v.len() - 1) =~= seq!['/']);
        } else {
            assert(v@.skip(v.len() - 1)[0] == v@[v.len() - 1]);
        }
    }
    b
}

/// `p` occurs in `s`.
pub open spec fn contains_text(s: Text, p: Text) -> bool {
    exists|i: int| 0 <= i && i + p.len() <= s.len() && #[trigger] s.subrange(i, i + p.len()) == p
}

/// Number of occurrences of `c` in `s`.
pub open spec fn count_char(s: Text, c: char) -> nat
    decreases s.len(),
{
    if s.len() == 0 {
        0
    } else {
        count_char(s.drop_last(), c) + if s.last() == c {
            1nat
        } else {
            0nat
        }
    }
}

/// A file written out of a ZIP archive: the entry's name inside the
/// archive, the path it was written to and that path's last component.
pub struct ExtractedFile {
    pub entry_name: String,
    pub out_path: String,
    pub file_name: String,
}

pub type FileV = (Text, Text, Text);

impl View for ExtractedFile {
    type V = FileV;

    open spec fn view(&self) -> FileV {
        (self.entry_name@, self.out_path@, self.file_name@)
    }
}

/// A `.txt` file (any ASCII case) that is not macOS metadata (`._*` files,
/// anything under `__MACOSX`).
pub open spec fn is_txt_candidate(f: FileV) -> bool {
    &&& ci_ends_with(f.1, ".txt"@)
    &&& !starts_with(f.2, "._"@)
    &&& !contains_text(f.1, "__MACOSX"@)
}

/// How deep the entry lies: its `/` and `\` separators.
pub open spec fn depth(f: FileV) -> nat {
    count_char(f.0, '/') + count_char(f.0, '\\')
}

/// `fs[i]` is the candidate that lies least deep, the first such one.
pub open spec fn is_choice(fs: Seq<FileV>, i: int) -> bool {
    &&& 0 <= i < fs.len()
    &&& is_txt_candidate(fs[i])
    &&& forall|j: int| 0 <= j < i && is_txt_candidate(#[trigger] fs[j]) ==> depth(fs[j]) > depth(fs[i])
    &&& forall|j: int| i < j < fs.len() && is_txt_candidate(#[trigger] fs[j]) ==> depth(fs[j]) >= depth(fs[i])
}

pub open spec fn files_view(fs: Seq<ExtractedFile>) -> Seq<FileV> {
    fs.map_values(|f: ExtractedFile| f@)
}

fn contains_lit(v: &Vec<char>, lit: &str) -> (b: bool)
    ensures
        b == contains_text(v@, lit@),
{
    let m = lit.unicode_len();
    if m > v.len() {
        assert(!contains_text(v@, lit@));
        return false;
    }
    let mut i: usize = 0;
    while i <= v.len() - m
        invariant
            m == lit@.len(),
            m <= v.len(),
            i <= v.len() - m + 1,
            forall|j: int| 0 <= j < i ==> #[trigger] v@.subrange(j, j + m) != lit@,
        decreases v.len() - i,
    {
        let mut k: usize = 0;
        let mut same = true;
        while k < m
            invariant
                k <= m,
                i + m <= v.len(),
                m == lit@.len(),
                same == (forall|t: int| 0 <= t < k ==> v@[i + t] == lit@[t]),
            decreases m - k,
        {
            if v[i + k] != lit.get_char(k) {
                same = false;
            }
            k += 1;
        }
        if same {
            assert(v@.subrange(i as int, i + m) =~= lit@);
            return true;
        }
        assert(v@.subrange(i as int, i + m) != lit@) by {
            let t = choose|t: int| 0 <= t < m && v@[i + t] != lit@[t];
            assert(v@.subrange(i as int, i + m)[t] == v@[i + t]);
        }
        i += 1;
    }
    false
}

fn count_char_exec(v: &Vec<char>, c: char) -> (n: usize)
    ensures
        n == count_char(v@, c),
{
    let mut n: usize = 0;
    let mut i: usize = 0;
    while i < v.len()
        invariant
            i <= v.len(),
            n == count_char(v@.take(i as int), c),
            n <= i,
        decreases v.len() - i,
    {
        assert(v@.take(i + 1).drop_last() =~= v@.take(i as int));
        if v[i] == c {
            n += 1;
        }
        i += 1;
    }
    assert(v@.take(v.len() as int) =~= v@);
    n
}

pub fn is_txt_candidate_exec(f: &ExtractedFile) -> (b: bool)
    ensures
        b == is_txt_candidate(f@),
{
    let path = chars_of(f.out_path.as_str());
    let name = chars_of(f.file_name.as_str());
    ci_ends_with_lit(&path, ".txt") && !starts_with_lit(&name, "._") && !contains_lit(&path, "__MACOSX")
}

pub fn depth_exec(f: &ExtractedFile) -> (d: usize)
    ensures
        d == depth(f@),
{
    let name = chars_of(f.entry_name.as_str());
    let a = count_char_exec(&name, '/');
    let b = count_char_exec(&name, '\\');
    proof {
        assert(count_char(name@, '/') <= name@.len()) by {
            lemma_count_char_le(name@, '/');
        }
        assert(count_char(name@, '\\') <= name@.len()) by {
            lemma_count_char_le(name@, '\\');
        }
    }
    proof {
        lemma_count_sum(name@);
    }
    assert(a + b <= name.len());
    a + b
}

proof fn lemma_count_char_le(s: Text, c: char)
    ensures
        count_char(s, c) <= s.len(),
    decreases s.len(),
{
    if s.len() > 0 {
        lemma_count_char_le(s.drop_last(), c);
    }
}

proof fn lemma_count_sum(s: Text)
    ensures
        count_char(s, '/') + count_char(s, '\\') <= s.len(),
    decreases s.len(),
{
    if s.len() > 0 {
        lemma_count_sum(s.drop_last());
    }
}

/// The schematic among the files extracted from a ZIP archive: the first
/// of the least deep `.txt` files, or the error `No .txt found`.
pub fn choose_txt(files: &Vec<ExtractedFile>) -> (r: Result<String, String>)
    ensures
        match r {
            Ok(p) => exists|i: int| is_choice(files_view(files@), i) && p@ == files_view(files@)[i].1,
            Err(e) => e@ == "No .txt found"@ && forall|i: int|
                0 <= i < files.len() ==> !is_txt_candidate(#[trigger] files_view(files@)[i]),
        },
{
    let ghost fs = files_view(files@);
    let mut best: Option<usize> = None;
    let mut best_depth: usize = 0;
    let mut i: usize = 0;
    while i < files.len()
        invariant
            i <= files.len(),
            fs == files_view(files@),
            match best {
                Some(b) => b < i && is_txt_candidate(fs[b as int]) && best_depth == depth(fs[b as int])
                    && (forall|j: int| 0 <= j < b && is_txt_candidate(#[trigger] fs[j]) ==> depth(fs[j]) > best_depth)
                    && (forall|j: int| b < j < i && is_txt_candidate(#[trigger] fs[j]) ==> depth(fs[j]) >= best_depth),
                None => forall|j: int| 0 <= j < i ==> !is_txt_candidate(#[trigger] fs[j]),
            },
        decreases files.len() - i,
    {
        if is_txt_candidate_exec(&files[i]) {
            let d = depth_exec(&files[i]);
            match best {
                Some(_) => {
                    if d < best_depth {
                        best = Some(i);
                        best_depth = d;
                    }
                },
                None => {
                    best = Some(i);
                    best_depth = d;
                },
            }
        }
        i += 1;
    }
    match best {
        Some(b) => {
            assert(is_choice(fs, b as int));
            Ok(files[b].out_path.clone())
        },
        None => Err(String::from_str("No .txt found")),
    }
}

/// `s` with every `\` turned into `/`.
pub open spec fn forward_slashes(s: Text) -> Text {
    s.map_values(|c: char| if c == '\\' { '/' } else { c })
}

fn forward_slashes_exec(v: &Vec<char>) -> (r: Vec<char>)
    ensures
        r@ == forward_slashes(v@),
{
    let mut out: Vec<char> = Vec::new();
    let mut i: usize = 0;
    while i < v.len()
        invariant
            i <= v.len(),
            out@ == forward_slashes(v@.take(i as int)),
        decreases v.len() - i,
    {
        let c = if v[i] == '\\' {
            '/'
        } else {
            v[i]
        };
        out.push(c);
        assert(forward_slashes(v@.take(i + 1)) =~= forward_slashes(v@.take(i as int)).push(c));
        i += 1;
    }
    assert(v@.take(v.len() as int) =~= v@);
    out
}

/// The archive entry `enclosed` is the file saved at `modified_path`: with
/// `\` read as `/`, the saved path ends with the entry's path.
pub fn is_modified_entry(modified_path: &str, enclosed: &str) -> (b: bool)
    ensures
        b == ends_with(forward_slashes(modified_path@), forward_slashes(enclosed@)),
{
    let m = forward_slashes_exec(&chars_of(modified_path));
    let e = forward_slashes_exec(&chars_of(enclosed));
    if e.len() > m.len() {
        return false;
    }
    let off = m.len() - e.len();
    let mut i: usize = 0;
    while i < e.len()
        invariant
            off + e.len() == m.len(),
            i <= e.len(),
            m@ == forward_slashes(modified_path@),
            e@ == forward_slashes(enclosed@),
            forall|j: int| 0 <= j < i ==> m@[off + j] == e@[j],
        decreases e.len() - i,
    {
        if m[off + i] != e[i] {
            assert(m@.skip(off as int)[i as int] == m@[off + i]);
            assert(m@.skip(off as int) != e@);
            return false;
        }
        i += 1;
    }
    assert(m@.skip(off as int) =~= e@);
    true
}

/// The path of the archive written while saving: the saved archive's path
/// with `.tmp` added.
pub fn temp_zip_path(archive_path: &str) -> (r: String)
    ensures
        r@ == archive_path@ + ".tmp"@,
{
    let mut r = String::from_str(archive_path);
    r.append(".tmp");
    r
}

} // verus!
