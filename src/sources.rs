//! Source tags. A tag names the file a passage came from and, after a `#`,
//! the passage's place in it (`notes.txt#chunk3`).
use vstd::prelude::*;
use crate::store::opt_chars;

verus! {

broadcast use vstd::string::group_string_axioms;

/// The file part of a source tag: the text before its first `#`.
pub open spec fn file_part(s: Seq<char>) -> Seq<char>
    decreases s.len(),
{
    if s.len() == 0 || s[0] == '#' {
        Seq::empty()
    } else {
        seq![s[0]] + file_part(s.drop_first())
    }
}

proof fn lemma_file_part_prefix(s: Seq<char>, i: int)
    requires
        0 <= i <= s.len(),
        forall|j: int| 0 <= j < i ==> s[j] != '#',
        i < s.len() ==> s[i] == '#',
    ensures
        file_part(s) == s.take(i),
    decreases s.len(),
{
    if s.len() > 0 && i > 0 {
        lemma_file_part_prefix(s.drop_first(), i - 1);
        assert(s.take(i) =~= seq![s[0]] + s.drop_first().take(i - 1));
    } else if s.len() > 0 {
        assert(s.take(0) =~= Seq::<char>::empty());
    } else {
        assert(s.take(i) =~= Seq::<char>::empty());
    }
}

/// The characters of the file part of `s`.
pub fn file_part_of(s: &String) -> (r: Vec<char>)
    ensures
        r@ == file_part(s@),
{
    let mut out: Vec<char> = Vec::new();
    let mut done = false;
    let ghost mut cut: int = 0;
    for c in iter: s.as_str().chars()
        invariant
            iter.seq() == s@,
            !done ==> out@ == s@.take(iter.index() as int) && forall|j: int| 0 <= j < iter.index() ==> s@[j] != '#',
            done ==> 0 <= cut < iter.index() && s@[cut] == '#' && out@ == s@.take(cut) && forall|j: int| 0 <= j < cut ==> s@[j] != '#',
    {
        if !done {
            if c == '#' {
                done = true;
                proof {
                    cut = iter.index() as int;
                }
            } else {
                out.push(c);
            }
        }
    }
    proof {
        if done {
            lemma_file_part_prefix(s@, cut);
        } else {
            lemma_file_part_prefix(s@, s@.len() as int);
            assert(s@.take(s@.len() as int) =~= s@);
        }
    }
    out
}

/// The files that the first `u` source tags name.
pub open spec fn files_upto(srcs: Seq<Option<Seq<char>>>, u: int) -> Set<Seq<char>> {
    Set::new(
        |f: Seq<char>|
            exists|i: int| 0 <= i < u && #[trigger] srcs[i] is Some && f == file_part(srcs[i]->Some_0),
    )
}

/// The files that the source tags name.
pub open spec fn source_files(srcs: Seq<Option<Seq<char>>>) -> Set<Seq<char>> {
    files_upto(srcs, srcs.len() as int)
}

fn same_chars(a: &Vec<char>, b: &Vec<char>) -> (r: bool)
    ensures
        r == (a@ == b@),
{
    if a.len() != b.len() {
        return false;
    }
    let mut i: usize = 0;
    while i < a.len()
        invariant
            a@.len() == b@.len(),
            i <= a@.len(),
            forall|j: int| 0 <= j < i ==> a@[j] == b@[j],
        decreases a@.len() - i,
    {
        if a[i] != b[i] {
            return false;
        }
        i = i + 1;
    }
    assert(a@ =~= b@);
    true
}

pub open spec fn char_seqs(v: Seq<Vec<char>>) -> Seq<Seq<char>> {
    v.map_values(|x: Vec<char>| x@)
}

fn holds(files: &Vec<Vec<char>>, f: &Vec<char>) -> (r: bool)
    ensures
        r == char_seqs(files@).contains(f@),
{
    let mut i: usize = 0;
    while i < files.len()
        invariant
            i <= files@.len(),
            forall|j: int| 0 <= j < i ==> char_seqs(files@)[j] != f@,
        decreases files@.len() - i,
    {
        if same_chars(&files[i], f) {
            assert(char_seqs(files@)[i as int] == f@);
            return true;
        }
        i = i + 1;
    }
    false
}

/// The distinct files that the source tags `srcs` name, each once, in the
/// order of their first tag.
pub fn distinct_source_files(srcs: &Vec<Option<String>>) -> (r: Vec<Vec<char>>)
    ensures
        char_seqs(r@).no_duplicates(),
        char_seqs(r@).to_set() == source_files(srcs@.map_values(|o: Option<String>| opt_chars(o))),
        r@.len() == source_files(srcs@.map_values(|o: Option<String>| opt_chars(o))).len(),
{
    let ghost sv = srcs@.map_values(|o: Option<String>| opt_chars(o));
    let mut files: Vec<Vec<char>> = Vec::new();
    let mut i: usize = 0;
    while i < srcs.len()
        invariant
            sv == srcs@.map_values(|o: Option<String>| opt_chars(o)),
            i <= srcs@.len(),
            char_seqs(files@).no_duplicates(),
            char_seqs(files@).to_set() == files_upto(sv, i as int),
        decreases srcs@.len() - i,
    {
        let ghost before = files_upto(sv, i as int);
        match &srcs[i] {
            Some(t) => {
                let f = file_part_of(t);
                assert(sv[i as int] == Some(t@));
                let ghost seen = char_seqs(files@);
                if !holds(&files, &f) {
                    files.push(f);
                    assert(char_seqs(files@) =~= seen.push(f@));
                    assert forall|a: int, b: int| 0 <= a < char_seqs(files@).len() && 0 <= b < char_seqs(files@).len() && a != b implies char_seqs(files@)[a] != char_seqs(files@)[b] by {
                        if a == seen.len() {
                            assert(char_seqs(files@)[b] == seen[b]);
                            assert(seen.contains(seen[b]));
                        } else if b == seen.len() {
                            assert(char_seqs(files@)[a] == seen[a]);
                            assert(seen.contains(seen[a]));
                        } else {
                            assert(char_seqs(files@)[a] == seen[a] && char_seqs(files@)[b] == seen[b]);
                        }
                    }
                }
                let ghost now = char_seqs(files@);
                assert forall|g: Seq<char>| now.contains(g) <==> (seen.contains(g) || g == f@) by {
                    if now.len() > seen.len() {
                        assert(now == seen.push(f@));
                        if now.contains(g) {
                            let k = choose|k: int| 0 <= k < now.len() && now[k] == g;
                            if k < seen.len() {
                                assert(seen[k] == g);
                            }
                        }
                        if seen.contains(g) {
                            let k = choose|k: int| 0 <= k < seen.len() && seen[k] == g;
                            assert(now[k] == g);
                        }
                        if g == f@ {
                            assert(now[seen.len() as int] == g);
                        }
                    } else {
                        assert(now == seen);
                    }
                }
                assert forall|g: Seq<char>| seen.contains(g) <==> before.contains(g) by {
                    assert(seen.to_set().contains(g) <==> seen.contains(g));
                }
                assert forall|g: Seq<char>| files_upto(sv, i + 1).contains(g) <==> (before.contains(g) || g == f@) by {
                    if files_upto(sv, i + 1).contains(g) {
                        let j = choose|j: int| 0 <= j < i + 1 && #[trigger] sv[j] is Some && g == file_part(sv[j]->Some_0);
                        if j < i {
                            assert(before.contains(g));
                        }
                    }
                    if before.contains(g) {
                        let j = choose|j: int| 0 <= j < i && #[trigger] sv[j] is Some && g == file_part(sv[j]->Some_0);
                        assert(files_upto(sv, i + 1).contains(g));
                    }
                    if g == f@ {
                        assert(sv[i as int] is Some && g == file_part(sv[i as int]->Some_0));
                    }
                }
                assert forall|g: Seq<char>| now.to_set().contains(g) <==> files_upto(sv, i + 1).contains(g) by {
                    assert(now.to_set().contains(g) <==> now.contains(g));
                }
                assert(char_seqs(files@).to_set() =~= files_upto(sv, i + 1));
            },
            None => {
                assert(sv[i as int] is None);
                assert forall|g: Seq<char>| before.contains(g) <==> files_upto(sv, i + 1).contains(g) by {
                    if files_upto(sv, i + 1).contains(g) {
                        let j = choose|j: int| 0 <= j < i + 1 && #[trigger] sv[j] is Some && g == file_part(sv[j]->Some_0);
                        assert(j != i);
                    }
                }
                assert(before =~= files_upto(sv, i + 1));
            },
        }
        i = i + 1;
    }
    proof {
        char_seqs(files@).unique_seq_to_set();
    }
    files
}

/// The decimal digit for `d < 10`.
pub open spec fn digit(d: nat) -> char {
    if d == 0 { '0' } else if d == 1 { '1' } else if d == 2 { '2' } else if d == 3 { '3' } else if d == 4 {
        '4'
    } else if d == 5 { '5' } else if d == 6 { '6' } else if d == 7 { '7' } else if d == 8 { '8' } else { '9' }
}

/// `n` in decimal, without leading zeros.
pub open spec fn decimal(n: nat) -> Seq<char>
    decreases n,
{
    if n < 10 {
        seq![digit(n)]
    } else {
        decimal(n / 10).push(digit(n % 10))
    }
}

/// The source tag of the passage at position `i` (counted from 0) of the
/// file `path`: the path, `#chunk`, and the passage's number counted from 1.
pub open spec fn chunk_tag(path: Seq<char>, i: nat) -> Seq<char> {
    path + seq!['#', 'c', 'h', 'u', 'n', 'k'] + decimal(i + 1)
}

fn digit_char(d: usize) -> (r: char)
    requires
        d < 10,
    ensures
        r == digit(d as nat),
{
    match d {
        0 => '0',
        1 => '1',
        2 => '2',
        3 => '3',
        4 => '4',
        5 => '5',
        6 => '6',
        7 => '7',
        8 => '8',
        _ => '9',
    }
}

fn push_decimal(out: &mut Vec<char>, n: usize)
    ensures
        final(out)@ == old(out)@ + decimal(n as nat),
    decreases n,
{
    if n >= 10 {
        push_decimal(out, n / 10);
    }
    out.push(digit_char(n % 10));
    assert(out@ =~= old(out)@ + decimal(n as nat));
}

/// Relies on `String`'s `FromIterator<&char>`: the string of the characters `v`.
#[verifier::external_body]
fn string_from_chars(v: &Vec<char>) -> (r: String)
    ensures
        r@ == v@,
{
    v.iter().collect()
}

/// The source tag of the passage at position `i` (counted from 0) of the
/// file `path`, as in `notes.txt#chunk3` for the third passage.
pub fn chunk_source_tag(path: &String, i: usize) -> (r: String)
    requires
        i < usize::MAX,
    ensures
        r@ == chunk_tag(path@, i as nat),
{
    let mut out: Vec<char> = Vec::new();
    for c in iter: path.as_str().chars()
        invariant
            iter.seq() == path@,
            out@ == path@.take(iter.index() as int),
    {
        out.push(c);
        assert(out@ =~= path@.take(iter.index() + 1));
    }
    assert(path@.take(path@.len() as int) =~= path@);
    out.push('#');
    out.push('c');
    out.push('h');
    out.push('u');
    out.push('n');
    out.push('k');
    push_decimal(&mut out, i + 1);
    assert(out@ =~= chunk_tag(path@, i as nat));
    string_from_chars(&out)
}

/// The file part of a passage's source tag is the file's path, for every
/// path without a `#`: the files that `source_files` counts are the files
/// the passages came from.
pub proof fn lemma_tag_file_part(path: Seq<char>, i: nat)
    requires
        !path.contains('#'),
    ensures
        file_part(chunk_tag(path, i)) == path,
    decreases path.len(),
{
    let t = chunk_tag(path, i);
    if path.len() == 0 {
        assert(t[0] == '#');
        assert(file_part(t) =~= path);
    } else {
        let rest = path.drop_first();
        assert(!rest.contains('#')) by {
            if rest.contains('#') {
                let k = choose|k: int| 0 <= k < rest.len() && rest[k] == '#';
                assert(path[k + 1] == '#');
            }
        }
        assert(path[0] != '#') by {
            assert(path.contains(path[0]));
        }
        lemma_tag_file_part(rest, i);
        assert(t.drop_first() =~= chunk_tag(rest, i));
        assert(t[0] == path[0]);
        assert(file_part(t) =~= seq![path[0]] + rest);
        assert(seq![path[0]] + rest =~= path);
    }
}

} // verus!
