//! Text edits to a scene file that keep the human's comments and spacing:
//! swapping the scene's id, and the id a file's path gives it.
use vstd::prelude::*;
use crate::naming::concat;
use crate::text::{chars_of, string_of};
use vstd::string::StringSliceAdditionalSpecFns;

verus! {

/// Rust's `char::is_whitespace`: the characters with the Unicode
/// `White_Space` property.
pub open spec fn is_whitespace(c: char) -> bool {
    ||| '\t' <= c <= '\r'
    ||| c == ' '
    ||| c == '\u{85}'
    ||| c == '\u{a0}'
    ||| c == '\u{1680}'
    ||| '\u{2000}' <= c <= '\u{200a}'
    ||| c == '\u{2028}'
    ||| c == '\u{2029}'
    ||| c == '\u{202f}'
    ||| c == '\u{205f}'
    ||| c == '\u{3000}'
}

/// `s` without its leading whitespace, as `str::trim_start` gives it.
pub open spec fn trim_start(s: Seq<char>) -> Seq<char>
    decreases s.len(),
{
    if s.len() > 0 && is_whitespace(s[0]) {
        trim_start(s.skip(1))
    } else {
        s
    }
}

/// Whether `s` begins with `prefix`.
pub open spec fn starts_with(s: Seq<char>, prefix: Seq<char>) -> bool {
    prefix.len() <= s.len() && s.take(prefix.len() as int) == prefix
}

/// `s` without its trailing whitespace, as `str::trim_end` gives it.
pub open spec fn trim_end(s: Seq<char>) -> Seq<char>
    decreases s.len(),
{
    if s.len() > 0 && is_whitespace(s.last()) {
        trim_end(s.drop_last())
    } else {
        s
    }
}

/// The lines of `s`, each with its own ending: `s` cut after every `\n`, a
/// last line with no ending kept as it is.
pub open spec fn segments(s: Seq<char>) -> Seq<Seq<char>>
    decreases s.len(),
{
    if s.len() == 0 {
        seq![]
    } else {
        let p = segments(s.drop_last());
        if p.len() > 0 && p.last().last() != '\n' {
            p.update(p.len() - 1, p.last().push(s.last()))
        } else {
            p.push(seq![s.last()])
        }
    }
}

/// A line's ending: `\r\n`, `\n`, or nothing for a last line without one.
pub open spec fn ending(line: Seq<char>) -> Seq<char> {
    if line.len() >= 2 && line.last() == '\n' && line[line.len() - 2] == '\r' {
        seq!['\r', '\n']
    } else if line.len() >= 1 && line.last() == '\n' {
        seq!['\n']
    } else {
        seq![]
    }
}

/// A line without its ending, as `str::lines` gives it.
pub open spec fn body(line: Seq<char>) -> Seq<char> {
    line.take(line.len() - ending(line).len())
}

/// Lines put back together.
pub open spec fn flatten(lines: Seq<Seq<char>>) -> Seq<char>
    decreases lines.len(),
{
    if lines.len() == 0 {
        seq![]
    } else {
        flatten(lines.drop_last()) + lines.last()
    }
}

/// The line ending a file uses: that of its first line when it is `\r\n`,
/// and `\n` otherwise.
pub open spec fn newline_of(text: Seq<char>) -> Seq<char> {
    let lines = segments(text);
    if lines.len() > 0 && ending(lines[0]) == seq!['\r', '\n'] {
        seq!['\r', '\n']
    } else {
        seq!['\n']
    }
}

/// `id = "<id>"`: the line that names a scene.
pub open spec fn id_line(id: Seq<char>) -> Seq<char> {
    seq!['i', 'd', ' ', '=', ' ', '"'] + id + seq!['"']
}

/// Whether a line opens a table: its first non-blank character is `[`.
pub open spec fn opens_table(line: Seq<char>) -> bool {
    starts_with(trim_start(line), seq!['['])
}

/// Whether a line opens the `[scene]` table.
pub open spec fn opens_scene(line: Seq<char>) -> bool {
    starts_with(trim_start(line), seq!['[', 's', 'c', 'e', 'n', 'e', ']'])
}

/// Where the first `c` in `s` at or after `i` is.
pub open spec fn first_from(s: Seq<char>, c: char, i: int) -> Option<int>
    decreases s.len() - i,
{
    if i < 0 || i >= s.len() {
        None
    } else if s[i] == c {
        Some(i)
    } else {
        first_from(s, c, i + 1)
    }
}

/// Whether a line assigns the key `id`: what comes before its first `=`,
/// blanks aside, is exactly `id`.
pub open spec fn assigns_id(line: Seq<char>) -> bool {
    match first_from(line, '=', 0) {
        Some(e) => trim_end(trim_start(line.take(e))) == seq!['i', 'd'],
        None => false,
    }
}

/// Where a rewrite stands after some lines: what it has written, whether it
/// is inside the `[scene]` table, and whether the id has been written.
pub struct Rewrite {
    pub out: Seq<Seq<char>>,
    pub in_scene: bool,
    pub written: bool,
}

/// One line of the rewrite. Leaving `[scene]` before its id was seen writes
/// one, ended as the file ends its lines; the first `id = ..` inside
/// `[scene]` (a line that is no table header) is replaced, keeping its own
/// ending; every other line is kept as it is, ending and all.
pub open spec fn rewrite_step(st: Rewrite, line: Seq<char>, id: Seq<char>, nl: Seq<char>) -> Rewrite {
    let text = body(line);
    let header = opens_table(text);
    let insert = header && st.in_scene && !st.written;
    let out = if insert { st.out.push(id_line(id) + nl) } else { st.out };
    let written = st.written || insert;
    let in_scene = if header { opens_scene(text) } else { st.in_scene };
    if in_scene && !written && !header && assigns_id(text) {
        Rewrite { out: out.push(id_line(id) + ending(line)), in_scene, written: true }
    } else {
        Rewrite { out: out.push(line), in_scene, written }
    }
}

/// The rewrite after `lines`.
pub open spec fn rewrite_scan(lines: Seq<Seq<char>>, id: Seq<char>, nl: Seq<char>) -> Rewrite
    decreases lines.len(),
{
    if lines.len() == 0 {
        Rewrite { out: Seq::empty(), in_scene: false, written: false }
    } else {
        rewrite_step(rewrite_scan(lines.drop_last(), id, nl), lines.last(), id, nl)
    }
}

/// What a `[scene]` table that reaches the end of the file without an id
/// gains: its id line, on a line of its own.
pub open spec fn closing_id(lines: Seq<Seq<char>>, id: Seq<char>, nl: Seq<char>) -> Seq<char> {
    if lines.len() > 0 && ending(lines.last()).len() == 0 {
        nl + id_line(id) + nl
    } else {
        id_line(id) + nl
    }
}

/// The lines of `text` with the scene's id made `id`: the first `id = ..` of
/// the `[scene]` table replaced, or, when the table has none, one added at its
/// end.
pub open spec fn rewritten_lines(text: Seq<char>, id: Seq<char>) -> Seq<Seq<char>> {
    let lines = segments(text);
    let nl = newline_of(text);
    let st = rewrite_scan(lines, id, nl);
    if st.in_scene && !st.written {
        st.out.push(closing_id(lines, id, nl))
    } else {
        st.out
    }
}

/// `text` with the scene's id swapped for `id`.
pub open spec fn with_scene_id(text: Seq<char>, id: Seq<char>) -> Seq<char> {
    flatten(rewritten_lines(text, id))
}

fn trimmed_start(line: &Vec<char>) -> (k: usize)
    ensures
        k <= line@.len(),
        trim_start(line@) == line@.skip(k as int),
{
    let mut k: usize = 0;
    assert(line@.skip(0) =~= line@);
    while k < line.len() && is_space(line[k])
        invariant
            k <= line@.len(),
            trim_start(line@) == trim_start(line@.skip(k as int)),
        decreases line@.len() - k,
    {
        assert(line@.skip(k as int).skip(1) =~= line@.skip(k + 1));
        k = k + 1;
    }
    k
}

fn is_space(c: char) -> (b: bool)
    ensures
        b == is_whitespace(c),
{
    ('\t' <= c && c <= '\r') || c == ' ' || c == '\u{85}' || c == '\u{a0}' || c == '\u{1680}'
        || ('\u{2000}' <= c && c <= '\u{200a}') || c == '\u{2028}' || c == '\u{2029}' || c
        == '\u{202f}' || c == '\u{205f}' || c == '\u{3000}'
}

fn has_prefix_at(line: &Vec<char>, at: usize, prefix: &Vec<char>) -> (b: bool)
    requires
        at <= line@.len(),
    ensures
        b == starts_with(line@.skip(at as int), prefix@),
{
    let n: usize = line.len();
    if prefix.len() > n - at {
        return false;
    }
    let mut k: usize = 0;
    while k < prefix.len()
        invariant
            n == line@.len(),
            at + prefix@.len() <= n,
            k <= prefix@.len(),
            forall|t: int| 0 <= t < k ==> line@[at + t] == prefix@[t],
        decreases prefix@.len() - k,
    {
        if line[at + k] != prefix[k] {
            assert(line@.skip(at as int).take(prefix@.len() as int)[k as int] != prefix@[k as int]);
            return false;
        }
        k = k + 1;
    }
    assert(line@.skip(at as int).take(prefix@.len() as int) =~= prefix@);
    true
}

fn id_line_of(id: &Vec<char>) -> (line: Vec<char>)
    ensures
        line@ == id_line(id@),
{
    let mut line: Vec<char> = vec!['i', 'd', ' ', '=', ' ', '"'];
    let mut k: usize = 0;
    while k < id.len()
        invariant
            k <= id@.len(),
            line@ == seq!['i', 'd', ' ', '=', ' ', '"'] + id@.take(k as int),
        decreases id@.len() - k,
    {
        line.push(id[k]);
        k = k + 1;
        assert(id@.take(k as int) =~= id@.take(k - 1).push(id@[k - 1]));
    }
    line.push('"');
    assert(id@.take(id@.len() as int) =~= id@);
    assert(line@ =~= id_line(id@));
    line
}

/// The characters of each vector.
pub open spec fn vecs_view(v: Seq<Vec<char>>) -> Seq<Seq<char>> {
    v.map_values(|c: Vec<char>| c@)
}

proof fn lemma_vecs_view_push(v: Seq<Vec<char>>, x: Vec<char>)
    ensures
        vecs_view(v.push(x)) == vecs_view(v).push(x@),
{
    assert(vecs_view(v.push(x)) =~= vecs_view(v).push(x@));
}

fn split_segments(chars: &Vec<char>) -> (lines: Vec<Vec<char>>)
    ensures
        vecs_view(lines@) == segments(chars@),
{
    let mut done: Vec<Vec<char>> = Vec::new();
    let mut cur: Vec<char> = Vec::new();
    let mut i: usize = 0;
    assert(chars@.take(0) =~= Seq::<char>::empty());
    while i < chars.len()
        invariant
            i <= chars@.len(),
            segments(chars@.take(i as int)) == vecs_view(done@) + (if cur@.len() > 0 {
                seq![cur@]
            } else {
                Seq::<Seq<char>>::empty()
            }),
            forall|k: int| 0 <= k < done@.len() ==> (#[trigger] done@[k])@.len() > 0 && done@[k]@.last() == '\n',
            cur@.len() > 0 ==> cur@.last() != '\n',
        decreases chars@.len() - i,
    {
        let ghost before = chars@.take(i as int);
        let ghost p = segments(before);
        let ghost old_done = done@;
        let ghost old_cur = cur@;
        let c = chars[i];
        assert(chars@.take(i + 1).drop_last() =~= before);
        assert(chars@.take(i + 1).last() == c);
        proof {
            if old_cur.len() == 0 && old_done.len() > 0 {
                assert(p.last() == old_done[old_done.len() - 1]@);
            }
        }
        let ghost vd = vecs_view(old_done);
        let ghost np = segments(chars@.take(i + 1));
        assert(np == vd.push(old_cur.push(c))) by {
            if old_cur.len() > 0 {
                assert(p =~= vd.push(old_cur));
                assert(np =~= vd.push(old_cur.push(c)));
            } else {
                assert(p =~= vd);
                assert(old_cur.push(c) =~= seq![c]);
                assert(np =~= vd.push(seq![c]));
            }
        }
        cur.push(c);
        assert(cur@ =~= old_cur.push(c));
        if c == '\n' {
            let finished = cur;
            done.push(finished);
            proof { lemma_vecs_view_push(old_done, finished); }
            cur = Vec::new();
            assert(np =~= vecs_view(done@));
        } else {
            assert(np =~= vecs_view(done@) + seq![cur@]);
        }
        i = i + 1;
        assert(segments(chars@.take(i as int)) =~= vecs_view(done@) + (if cur@.len() > 0 {
            seq![cur@]
        } else {
            Seq::<Seq<char>>::empty()
        }));
    }
    assert(chars@.take(chars@.len() as int) =~= chars@);
    if cur.len() > 0 {
        let ghost old_done = done@;
        let last = cur;
        done.push(last);
        proof { lemma_vecs_view_push(old_done, last); }
    } else {
        assert(vecs_view(done@) + Seq::<Seq<char>>::empty() =~= vecs_view(done@));
    }
    done
}

fn ending_len(line: &Vec<char>) -> (n: usize)
    ensures
        n == ending(line@).len(),
        n <= line@.len(),
        ending(line@) == line@.skip(line@.len() - n),
{
    let len = line.len();
    if len >= 2 && line[len - 1] == '\n' && line[len - 2] == '\r' {
        assert(line@.skip(len - 2) =~= seq!['\r', '\n']);
        2
    } else if len >= 1 && line[len - 1] == '\n' {
        assert(line@.skip(len - 1) =~= seq!['\n']);
        1
    } else {
        assert(line@.skip(len as int) =~= Seq::<char>::empty());
        0
    }
}

pub(crate) fn slice_of(v: &Vec<char>, a: usize, b: usize) -> (out: Vec<char>)
    requires
        a <= b <= v@.len(),
    ensures
        out@ == v@.subrange(a as int, b as int),
{
    let mut out: Vec<char> = Vec::new();
    let mut k: usize = a;
    while k < b
        invariant
            a <= k <= b <= v@.len(),
            out@ == v@.subrange(a as int, k as int),
        decreases b - k,
    {
        out.push(v[k]);
        k = k + 1;
        assert(v@.subrange(a as int, k as int) =~= v@.subrange(a as int, k - 1).push(v@[k - 1]));
    }
    out
}

fn append(out: &mut Vec<char>, more: &Vec<char>)
    ensures
        final(out)@ == old(out)@ + more@,
{
    let ghost start = out@;
    let mut k: usize = 0;
    while k < more.len()
        invariant
            k <= more@.len(),
            out@ == start + more@.take(k as int),
        decreases more@.len() - k,
    {
        out.push(more[k]);
        k = k + 1;
        assert(more@.take(k as int) =~= more@.take(k - 1).push(more@[k - 1]));
    }
    assert(more@.take(more@.len() as int) =~= more@);
}

fn trimmed_end(line: &Vec<char>) -> (k: usize)
    ensures
        k <= line@.len(),
        trim_end(line@) == line@.take(k as int),
{
    let mut k: usize = line.len();
    assert(line@.take(k as int) =~= line@);
    while k > 0 && is_space(line[k - 1])
        invariant
            k <= line@.len(),
            trim_end(line@) == trim_end(line@.take(k as int)),
        decreases k,
    {
        assert(line@.take(k as int).drop_last() =~= line@.take(k - 1));
        k = k - 1;
    }
    k
}

fn first_eq(line: &Vec<char>) -> (at: Option<usize>)
    ensures
        match at {
            Some(e) => first_from(line@, '=', 0) == Some(e as int) && e < line@.len(),
            None => first_from(line@, '=', 0) is None,
        },
{
    let mut k: usize = 0;
    while k < line.len()
        invariant
            k <= line@.len(),
            first_from(line@, '=', 0) == first_from(line@, '=', k as int),
        decreases line@.len() - k,
    {
        if line[k] == '=' {
            return Some(k);
        }
        k = k + 1;
    }
    None
}

fn names_id(line: &Vec<char>) -> (b: bool)
    ensures
        b == assigns_id(line@),
{
    match first_eq(line) {
        None => false,
        Some(e) => {
            let key = slice_of(line, 0, e);
            assert(key@ =~= line@.take(e as int));
            let ks = trimmed_start(&key);
            let rest = slice_of(&key, ks, key.len());
            assert(rest@ =~= key@.skip(ks as int));
            let ke = trimmed_end(&rest);
            let found = ke == 2 && rest[0] == 'i' && rest[1] == 'd';
            assert(found == (rest@.take(ke as int) =~= seq!['i', 'd']));
            found
        },
    }
}

fn line_kind(line: &Vec<char>) -> (kind: (bool, bool, bool))
    ensures
        kind.0 == opens_table(line@),
        kind.1 == opens_scene(line@),
        kind.2 == assigns_id(line@),
{
    let k = trimmed_start(line);
    let bracket: Vec<char> = vec!['['];
    let scene: Vec<char> = vec!['[', 's', 'c', 'e', 'n', 'e', ']'];
    assert(bracket@ =~= seq!['[']);
    let header = has_prefix_at(line, k, &bracket);
    let opens = has_prefix_at(line, k, &scene);
    (header, opens, names_id(line))
}

/// Swap a scene's `id` for another, leaving the rest of the file alone.
///
/// Text, not a re-serialisation: comments, spacing and line endings survive.
/// Only the `[scene]` table's `id` is touched; a table that has none gains
/// one at its end.
pub fn replace_scene_id(text: &str, id: &str) -> (out: String)
    ensures
        out@ == with_scene_id(text@, id@),
{
    let chars = chars_of(text);
    let id_chars = chars_of(id);
    let idl = id_line_of(&id_chars);
    let lines = split_segments(&chars);
    let ghost all = segments(text@);
    let nl: Vec<char> = if lines.len() > 0 && ending_len(&lines[0]) == 2 {
        assert(ending(all[0]) =~= seq!['\r', '\n']);
        vec!['\r', '\n']
    } else {
        let v: Vec<char> = vec!['\n'];
        assert(v@ =~= seq!['\n']);
        v
    };
    assert(nl@ == newline_of(text@));
    let id_nl = concat(&idl, &nl);
    let mut out: Vec<Vec<char>> = Vec::new();
    let mut in_scene = false;
    let mut written = false;
    let mut j: usize = 0;
    assert(vecs_view(out@) =~= Seq::<Seq<char>>::empty());
    while j < lines.len()
        invariant
            chars@ == text@,
            idl@ == id_line(id@),
            id_nl@ == id_line(id@) + nl@,
            all == segments(text@),
            vecs_view(lines@) == all,
            j <= lines@.len(),
            rewrite_scan(all.take(j as int), id@, nl@).out == vecs_view(out@),
            rewrite_scan(all.take(j as int), id@, nl@).in_scene == in_scene,
            rewrite_scan(all.take(j as int), id@, nl@).written == written,
        decreases lines@.len() - j,
    {
        let ghost st = rewrite_scan(all.take(j as int), id@, nl@);
        assert(all.take(j + 1).drop_last() =~= all.take(j as int));
        assert(all.take(j + 1).last() == lines@[j as int]@);
        assert(rewrite_scan(all.take(j + 1), id@, nl@) == rewrite_step(st, lines@[j as int]@, id@, nl@));
        let line = &lines[j];
        let len = line.len();
        let el = ending_len(line);
        let text_part = slice_of(line, 0, len - el);
        assert(text_part@ =~= body(line@));
        let (header, opens, assigns) = line_kind(&text_part);
        if header && in_scene && !written {
            let ghost o = out@;
            out.push(id_nl.clone());
            proof { lemma_vecs_view_push(o, id_nl); }
            written = true;
        }
        if header {
            in_scene = opens;
        }
        let ghost o = out@;
        if in_scene && !written && !header && assigns {
            let end = slice_of(line, len - el, len);
            assert(end@ =~= ending(line@));
            let replaced = concat(&idl, &end);
            out.push(replaced);
            proof { lemma_vecs_view_push(o, replaced); }
            written = true;
        } else {
            let kept = line.clone();
            out.push(kept);
            proof { lemma_vecs_view_push(o, kept); }
        }
        j = j + 1;
    }
    assert(all.take(all.len() as int) =~= all);
    if in_scene && !written {
        let closing = if lines.len() > 0 && ending_len(&lines[lines.len() - 1]) == 0 {
            let front = concat(&nl, &idl);
            concat(&front, &nl)
        } else {
            id_nl.clone()
        };
        assert(closing@ == closing_id(all, id@, nl@));
        let ghost o = out@;
        out.push(closing);
        proof { lemma_vecs_view_push(o, closing); }
    }
    let ghost result = rewritten_lines(text@, id@);
    assert(vecs_view(out@) == result);
    let mut text_out: Vec<char> = Vec::new();
    let mut k: usize = 0;
    while k < out.len()
        invariant
            k <= out@.len(),
            vecs_view(out@) == result,
            text_out@ == flatten(result.take(k as int)),
        decreases out@.len() - k,
    {
        assert(out@[k as int]@ == result[k as int]);
        append(&mut text_out, &out[k]);
        k = k + 1;
        assert(result.take(k as int).drop_last() =~= result.take(k - 1));
    }
    assert(result.take(result.len() as int) =~= result);
    string_of(&text_out)
}

/// Whether `e` is a line break, `\n` or `\r\n`.
pub open spec fn is_break(e: Seq<char>) -> bool {
    e == seq!['\n'] || e == seq!['\r', '\n']
}

/// Whether `e` ends a line: a line break, or nothing at the end of a file.
pub open spec fn line_end(e: Seq<char>) -> bool {
    e.len() == 0 || is_break(e)
}

/// Whether `x` is an id line written by the rewrite: `id = "<id>"` with a
/// line ending, or, after a last line that had none, on a line of its own.
pub open spec fn id_entry(x: Seq<char>, id: Seq<char>) -> bool {
    ||| exists|e: Seq<char>| #[trigger] line_end(e) && x == id_line(id) + e
    ||| exists|e: Seq<char>| #[trigger] is_break(e) && x == e + id_line(id) + e
}

/// Whether `out` is `lines` with the id line `x` put in before line `i`, or,
/// when `replaced`, put in place of line `i`, which assigned the id.
pub open spec fn changed_at(out: Seq<Seq<char>>, lines: Seq<Seq<char>>, id: Seq<char>, i: int, x: Seq<char>, replaced: bool) -> bool {
    &&& id_entry(x, id)
    &&& if replaced {
        &&& 0 <= i < lines.len()
        &&& assigns_id(body(lines[i]))
        &&& out == lines.take(i).push(x) + lines.skip(i + 1)
    } else {
        &&& 0 <= i <= lines.len()
        &&& out == lines.take(i).push(x) + lines.skip(i)
    }
}

proof fn lemma_flatten_segments(s: Seq<char>)
    ensures
        flatten(segments(s)) == s,
    decreases s.len(),
{
    if s.len() > 0 {
        let p = segments(s.drop_last());
        lemma_flatten_segments(s.drop_last());
        if p.len() > 0 && p.last().last() != '\n' {
            let q = p.update(p.len() - 1, p.last().push(s.last()));
            assert(q.drop_last() =~= p.drop_last());
            assert(flatten(p) == flatten(p.drop_last()) + p.last());
            assert(flatten(q) =~= flatten(p).push(s.last()));
        } else {
            assert(p.push(seq![s.last()]).drop_last() =~= p);
        }
        assert(s.drop_last().push(s.last()) =~= s);
    }
}

proof fn lemma_id_entry_ends(id: Seq<char>, e: Seq<char>)
    requires
        line_end(e),
    ensures
        id_entry(id_line(id) + e, id),
{
    assert(line_end(e) && id_line(id) + e == id_line(id) + e);
}

proof fn lemma_ending_is_line_end(line: Seq<char>)
    ensures
        line_end(ending(line)),
{
    if ending(line).len() == 1 {
        assert(ending(line) =~= seq!['\n']);
    } else if ending(line).len() == 2 {
        assert(ending(line) =~= seq!['\r', '\n']);
    }
}

/// The rewrite so far: the lines as they were, or, once the id is written,
/// the lines with one id line put in or put in place of an id assignment.
proof fn lemma_scan(lines: Seq<Seq<char>>, id: Seq<char>, nl: Seq<char>) -> (at: (int, bool, Seq<char>))
    requires
        is_break(nl),
    ensures
        !rewrite_scan(lines, id, nl).written ==> rewrite_scan(lines, id, nl).out == lines,
        rewrite_scan(lines, id, nl).written ==> changed_at(rewrite_scan(lines, id, nl).out, lines, id, at.0, at.2, at.1),
        (exists|j: int| 0 <= j < lines.len() && opens_scene(body(#[trigger] lines[j]))) ==> rewrite_scan(lines, id, nl).written
            || rewrite_scan(lines, id, nl).in_scene,
        (forall|j: int| 0 <= j < lines.len() ==> !opens_scene(body(#[trigger] lines[j]))) ==> !rewrite_scan(lines, id, nl).in_scene
            && !rewrite_scan(lines, id, nl).written,
    decreases lines.len(),
{
    if lines.len() == 0 {
        return (0, false, Seq::empty());
    }
    let prev = lines.drop_last();
    let line = lines.last();
    let n = prev.len() as int;
    let before = lemma_scan(prev, id, nl);
    let st = rewrite_scan(prev, id, nl);
    let next = rewrite_scan(lines, id, nl);
    assert(next == rewrite_step(st, line, id, nl));
    assert(line == lines[n]);
    assert(prev.push(line) =~= lines);
    let text = body(line);
    let header = opens_table(text);
    let insert = header && st.in_scene && !st.written;
    let in_scene = if header { opens_scene(text) } else { st.in_scene };
    lemma_scene_header_opens_a_table(text);
    if exists|j: int| 0 <= j < lines.len() && opens_scene(body(#[trigger] lines[j])) {
        let j = choose|j: int| 0 <= j < lines.len() && opens_scene(body(#[trigger] lines[j]));
        if j < n {
            assert(prev[j] == lines[j]);
        }
    }
    if forall|j: int| 0 <= j < lines.len() ==> !opens_scene(body(#[trigger] lines[j])) {
        assert forall|j: int| 0 <= j < prev.len() implies !opens_scene(body(#[trigger] prev[j])) by {
            assert(prev[j] == lines[j]);
        }
        assert(!opens_scene(body(lines[n])));
    }
    if st.written {
        let (i, replaced, x) = before;
        if replaced {
            assert(lines.take(i) =~= prev.take(i));
            assert(lines.skip(i + 1) =~= prev.skip(i + 1).push(line));
            assert(lines[i] == prev[i]);
            assert(next.out =~= lines.take(i).push(x) + lines.skip(i + 1));
        } else {
            assert(lines.take(i) =~= prev.take(i));
            assert(lines.skip(i) =~= prev.skip(i).push(line));
            assert(next.out =~= lines.take(i).push(x) + lines.skip(i));
        }
        before
    } else if insert {
        let x = id_line(id) + nl;
        lemma_id_entry_ends(id, nl);
        assert(lines.take(n) =~= prev);
        assert(lines.skip(n) =~= seq![line]);
        assert(next.out =~= lines.take(n).push(x) + lines.skip(n));
        (n, false, x)
    } else if in_scene && !header && assigns_id(text) {
        let x = id_line(id) + ending(line);
        lemma_ending_is_line_end(line);
        lemma_id_entry_ends(id, ending(line));
        assert(lines.take(n) =~= prev);
        assert(lines.skip(n + 1) =~= Seq::<Seq<char>>::empty());
        assert(next.out =~= lines.take(n).push(x) + lines.skip(n + 1));
        (n, true, x)
    } else {
        assert(next.out =~= lines);
        before
    }
}

proof fn lemma_scene_header_opens_a_table(text: Seq<char>)
    ensures
        opens_scene(text) ==> opens_table(text),
{
    if opens_scene(text) {
        let t = trim_start(text);
        let sc: Seq<char> = seq!['[', 's', 'c', 'e', 'n', 'e', ']'];
        assert(t.take(7) == sc);
        assert(t.take(1) =~= t.take(7).take(1));
        assert(sc.take(1) =~= seq!['[']);
    }
}

proof fn lemma_newline_breaks(text: Seq<char>)
    ensures
        is_break(newline_of(text)),
{
}

/// The rewrite changes one line at most: the file comes back as it was,
/// every line with its own ending, except for one id line put in, or put in
/// place of the line that assigned the id.
pub proof fn law_only_the_scene_id_changes(text: Seq<char>, id: Seq<char>)
    ensures
        ({
            let lines = segments(text);
            let out = rewritten_lines(text, id);
            ||| out == lines
            ||| exists|i: int, x: Seq<char>, replaced: bool| #[trigger] changed_at(out, lines, id, i, x, replaced)
        }),
{
    let lines = segments(text);
    let nl = newline_of(text);
    lemma_newline_breaks(text);
    let (i, replaced, x) = lemma_scan(lines, id, nl);
    let st = rewrite_scan(lines, id, nl);
    let out = rewritten_lines(text, id);
    if st.written {
        assert(changed_at(out, lines, id, i, x, replaced));
    } else if st.in_scene {
        let c = closing_id(lines, id, nl);
        if lines.len() > 0 && ending(lines.last()).len() == 0 {
            assert(is_break(nl) && c == nl + id_line(id) + nl);
        } else {
            assert(line_end(nl));
            lemma_id_entry_ends(id, nl);
        }
        assert(lines.take(lines.len() as int) =~= lines);
        assert(lines.skip(lines.len() as int) =~= Seq::<Seq<char>>::empty());
        assert(out =~= lines.take(lines.len() as int).push(c) + lines.skip(lines.len() as int));
        assert(changed_at(out, lines, id, lines.len() as int, c, false));
    }
}

/// A file that opens a `[scene]` table comes out with an id line written.
pub proof fn law_a_scene_table_comes_out_with_the_id(text: Seq<char>, id: Seq<char>)
    requires
        exists|j: int| 0 <= j < segments(text).len() && opens_scene(body(#[trigger] segments(text)[j])),
    ensures
        exists|k: int| 0 <= k < rewritten_lines(text, id).len() && id_entry(#[trigger] rewritten_lines(text, id)[k], id),
{
    let lines = segments(text);
    let nl = newline_of(text);
    lemma_newline_breaks(text);
    let (i, replaced, x) = lemma_scan(lines, id, nl);
    let st = rewrite_scan(lines, id, nl);
    let out = rewritten_lines(text, id);
    if st.written {
        assert(out[i] == x);
    } else {
        let c = closing_id(lines, id, nl);
        if lines.len() > 0 && ending(lines.last()).len() == 0 {
            assert(is_break(nl) && c == nl + id_line(id) + nl);
        } else {
            assert(line_end(nl));
            lemma_id_entry_ends(id, nl);
        }
        assert(out[lines.len() as int] == c);
    }
}

/// A file without a `[scene]` table comes back exactly as it was.
pub proof fn law_no_scene_table_no_change(text: Seq<char>, id: Seq<char>)
    requires
        forall|j: int| 0 <= j < segments(text).len() ==> !opens_scene(body(#[trigger] segments(text)[j])),
    ensures
        with_scene_id(text, id) == text,
{
    lemma_newline_breaks(text);
    lemma_scan(segments(text), id, newline_of(text));
    lemma_flatten_segments(text);
}

/// The rewrite from state `st` on over `lines`.
spec fn scan_from(st: Rewrite, lines: Seq<Seq<char>>, id: Seq<char>, nl: Seq<char>) -> Rewrite
    decreases lines.len(),
{
    if lines.len() == 0 {
        st
    } else {
        rewrite_step(scan_from(st, lines.drop_last(), id, nl), lines.last(), id, nl)
    }
}

spec fn scan_start() -> Rewrite {
    Rewrite { out: Seq::empty(), in_scene: false, written: false }
}

proof fn lemma_scan_is_scan_from(lines: Seq<Seq<char>>, id: Seq<char>, nl: Seq<char>)
    ensures
        rewrite_scan(lines, id, nl) == scan_from(scan_start(), lines, id, nl),
    decreases lines.len(),
{
    if lines.len() > 0 {
        lemma_scan_is_scan_from(lines.drop_last(), id, nl);
    }
}

proof fn lemma_scan_from_append(st: Rewrite, p: Seq<Seq<char>>, q: Seq<Seq<char>>, id: Seq<char>, nl: Seq<char>)
    ensures
        scan_from(st, p + q, id, nl) == scan_from(scan_from(st, p, id, nl), q, id, nl),
    decreases q.len(),
{
    if q.len() == 0 {
        assert(p + q =~= p);
    } else {
        assert((p + q).drop_last() =~= p + q.drop_last());
        assert((p + q).last() == q.last());
        lemma_scan_from_append(st, p, q.drop_last(), id, nl);
    }
}

proof fn lemma_scan_from_one(st: Rewrite, x: Seq<char>, id: Seq<char>, nl: Seq<char>)
    ensures
        scan_from(st, seq![x], id, nl) == rewrite_step(st, x, id, nl),
{
    assert(seq![x].drop_last() =~= Seq::<Seq<char>>::empty());
    assert(scan_from(st, seq![x].drop_last(), id, nl) == st);
    assert(seq![x].last() == x);
}

/// An id line, with any line ending: it is its own body, it is no table
/// header, and it assigns the id.
proof fn lemma_id_line_shape(x: Seq<char>, e: Seq<char>)
    requires
        line_end(e),
    ensures
        ending(id_line(x) + e) == e,
        body(id_line(x) + e) == id_line(x),
        !opens_table(id_line(x)),
        assigns_id(id_line(x)),
{
    let l = id_line(x);
    let le = l + e;
    assert(l[l.len() - 1] == '"');
    if e.len() == 0 {
        assert(le =~= l);
    } else if e == seq!['\n'] {
        assert(le[le.len() - 1] == '\n');
        assert(le[le.len() - 2] == '"');
    } else {
        assert(le[le.len() - 1] == '\n');
        assert(le[le.len() - 2] == '\r');
    }
    assert(le.take(le.len() - e.len()) =~= l);
    assert(l[0] == 'i');
    assert(trim_start(l) == l);
    assert(l.take(1) =~= seq!['i']);
    assert(first_from(l, '=', 3) == Some(3int));
    assert(first_from(l, '=', 2) == Some(3int));
    assert(first_from(l, '=', 1) == Some(3int));
    assert(first_from(l, '=', 0) == Some(3int));
    let key = l.take(3);
    assert(key =~= seq!['i', 'd', ' ']);
    assert(trim_start(key) == key);
    assert(key.drop_last() =~= seq!['i', 'd']);
    assert(trim_end(key) == trim_end(seq!['i', 'd']));
    assert(trim_end(seq!['i', 'd']) == seq!['i', 'd']);
}

/// Whether `x` is one line of a file: not empty, with a `\n` only at its
/// end, and one there unless it is the file's last line.
spec fn line_ok(x: Seq<char>, last: bool) -> bool {
    &&& x.len() > 0
    &&& forall|t: int| 0 <= t < x.len() - 1 ==> x[t] != '\n'
    &&& !last ==> x.last() == '\n'
}

/// Whether `lines` are the lines of some file.
spec fn proper(lines: Seq<Seq<char>>) -> bool {
    forall|k: int| 0 <= k < lines.len() ==> line_ok(#[trigger] lines[k], k == lines.len() - 1)
}

proof fn lemma_segments_proper(s: Seq<char>)
    ensures
        proper(segments(s)),
    decreases s.len(),
{
    if s.len() > 0 {
        lemma_segments_proper(s.drop_last());
        let p = segments(s.drop_last());
        let c = s.last();
        let q = segments(s);
        if p.len() > 0 && p.last().last() != '\n' {
            let y = p.last();
            assert(line_ok(p[p.len() - 1], true));
            assert forall|k: int| 0 <= k < q.len() implies line_ok(#[trigger] q[k], k == q.len() - 1) by {
                if k < q.len() - 1 {
                    assert(q[k] == p[k]);
                    assert(line_ok(p[k], k == p.len() - 1));
                } else {
                    assert(q[k] == y.push(c));
                    assert forall|t: int| 0 <= t < y.push(c).len() - 1 implies y.push(c)[t] != '\n' by {
                        if t < y.len() - 1 {
                            assert(y.push(c)[t] == y[t]);
                        } else {
                            assert(y.push(c)[t] == y.last());
                        }
                    }
                }
            }
        } else {
            assert forall|k: int| 0 <= k < q.len() implies line_ok(#[trigger] q[k], k == q.len() - 1) by {
                if k < p.len() {
                    assert(q[k] == p[k]);
                    assert(line_ok(p[k], k == p.len() - 1));
                } else {
                    assert(q[k] =~= seq![c]);
                }
            }
        }
    }
}

proof fn lemma_segments_append(x: Seq<char>, y: Seq<char>)
    requires
        segments(x).len() == 0 || segments(x).last().last() == '\n',
        line_ok(y, true),
    ensures
        segments(x + y) == segments(x).push(y),
    decreases y.len(),
{
    let p = segments(x);
    if y.len() == 1 {
        assert((x + y).drop_last() =~= x);
        assert(y =~= seq![y[0]]);
    } else {
        let z = y.drop_last();
        assert forall|t: int| 0 <= t < z.len() - 1 implies z[t] != '\n' by {
            assert(z[t] == y[t]);
        }
        lemma_segments_append(x, z);
        assert((x + y).drop_last() =~= x + z);
        assert((x + y).last() == y.last());
        assert(z.last() == y[y.len() - 2]);
        let q = p.push(z);
        assert(q.last() == z);
        assert(z.push(y.last()) =~= y);
        assert(q.update(q.len() - 1, z.push(y.last())) =~= p.push(y));
    }
}

proof fn lemma_flatten_proper(lines: Seq<Seq<char>>)
    requires
        proper(lines),
    ensures
        segments(flatten(lines)) == lines,
    decreases lines.len(),
{
    if lines.len() == 0 {
        assert(segments(Seq::<char>::empty()) =~= Seq::<Seq<char>>::empty());
    } else {
        let prev = lines.drop_last();
        assert forall|k: int| 0 <= k < prev.len() implies line_ok(#[trigger] prev[k], k == prev.len() - 1) by {
            assert(prev[k] == lines[k]);
            assert(line_ok(lines[k], k == lines.len() - 1));
        }
        lemma_flatten_proper(prev);
        if prev.len() > 0 {
            assert(line_ok(lines[prev.len() - 1], false));
        }
        assert(line_ok(lines[lines.len() - 1], true));
        lemma_segments_append(flatten(prev), lines.last());
        assert(prev.push(lines.last()) =~= lines);
    }
}

proof fn lemma_segments_avoid(s: Seq<char>, c: char)
    requires
        !s.contains(c),
    ensures
        forall|k: int, t: int| 0 <= k < segments(s).len() && 0 <= t < segments(s)[k].len() ==> #[trigger] segments(s)[k][t] != c,
    decreases s.len(),
{
    if s.len() > 0 {
        let s0 = s.drop_last();
        assert forall|i: int| 0 <= i < s0.len() implies s0[i] != c by {
            assert(s0[i] == s[i]);
        }
        lemma_segments_avoid(s0, c);
        assert(s[s.len() - 1] != c);
        let p = segments(s0);
        let q = segments(s);
        assert forall|k: int, t: int| 0 <= k < q.len() && 0 <= t < q[k].len() implies #[trigger] q[k][t] != c by {
            if k < p.len() && !(p.len() > 0 && p.last().last() != '\n' && k == p.len() - 1) {
                assert(q[k] == p[k]);
                assert(p[k][t] != c);
            } else if k < p.len() {
                let y = p.last();
                assert(q[k] == y.push(s.last()));
                if t < y.len() {
                    assert(p[k][t] != c);
                }
            } else {
                assert(q[k] =~= seq![s.last()]);
            }
        }
    }
}

proof fn lemma_id_line_ok(x: Seq<char>, e: Seq<char>)
    requires
        !x.contains('\n'),
        line_end(e),
    ensures
        line_ok(id_line(x) + e, true),
        e.len() > 0 ==> line_ok(id_line(x) + e, false),
{
    let l = id_line(x);
    let y = l + e;
    assert forall|t: int| 0 <= t < y.len() - 1 implies y[t] != '\n' by {
        if t < 6 {
            assert(y[t] == l[t]);
        } else if t < 6 + x.len() {
            assert(y[t] == x[t - 6]);
        } else if t < l.len() {
            assert(y[t] == '"');
        } else {
            assert(y[t] == e[t - l.len()]);
            assert(e == seq!['\r', '\n']);
        }
    }
    if e.len() > 0 {
        assert(y.last() == e.last());
    }
}

/// Rewriting to `a` and then to `b` goes through the same states as
/// rewriting to `b` at once, and what the first rewrite writes are lines of a
/// file.
proof fn lemma_lockstep(lines: Seq<Seq<char>>, a: Seq<char>, b: Seq<char>, nl: Seq<char>, j: int)
    requires
        proper(lines),
        is_break(nl),
        !a.contains('\n'),
        0 <= j <= lines.len(),
    ensures
        ({
            let sa = scan_from(scan_start(), lines.take(j), a, nl);
            let sb = scan_from(scan_start(), lines.take(j), b, nl);
            let sc = scan_from(scan_start(), sa.out, b, nl);
            &&& sc.out == sb.out
            &&& sc.in_scene == sa.in_scene && sc.written == sa.written
            &&& sb.in_scene == sa.in_scene && sb.written == sa.written
            &&& proper(sa.out)
            &&& j > 0 ==> sa.out.len() > 0 && sa.out[0] == lines[0] && (sa.out.last().last() == '\n' <==> lines[j
                - 1].last() == '\n')
            &&& j == 0 ==> sa.out.len() == 0
        }),
    decreases j,
{
    if j == 0 {
        assert(lines.take(0) =~= Seq::<Seq<char>>::empty());
        return;
    }
    lemma_lockstep(lines, a, b, nl, j - 1);
    let take0 = lines.take(j - 1);
    let l = lines[j - 1];
    assert(lines.take(j).drop_last() =~= take0);
    assert(lines.take(j).last() == l);
    let a0 = scan_from(scan_start(), take0, a, nl);
    let b0 = scan_from(scan_start(), take0, b, nl);
    let c0 = scan_from(scan_start(), a0.out, b, nl);
    let a1 = scan_from(scan_start(), lines.take(j), a, nl);
    let b1 = scan_from(scan_start(), lines.take(j), b, nl);
    assert(a1 == rewrite_step(a0, l, a, nl));
    assert(b1 == rewrite_step(b0, l, b, nl));
    let t = body(l);
    let header = opens_table(t);
    let insert = header && a0.in_scene && !a0.written;
    let in_scene = if header { opens_scene(t) } else { a0.in_scene };
    let written = a0.written || insert;
    let rep = in_scene && !written && !header && assigns_id(t);
    assert(line_ok(l, j - 1 == lines.len() - 1));
    lemma_id_line_shape(a, nl);
    lemma_id_line_ok(a, nl);
    if j > 1 {
        assert(line_ok(lines[j - 2], false));
    }
    if insert {
        let x = id_line(a) + nl;
        assert(a1.out =~= a0.out + seq![x, l]);
        lemma_scan_from_append(scan_start(), a0.out, seq![x, l], b, nl);
        assert(seq![x, l] =~= seq![x] + seq![l]);
        lemma_scan_from_append(c0, seq![x], seq![l], b, nl);
        lemma_scan_from_one(c0, x, b, nl);
        let c_mid = rewrite_step(c0, x, b, nl);
        lemma_scan_from_one(c_mid, l, b, nl);
        assert(c_mid.out == c0.out.push(id_line(b) + nl));
        let c1 = rewrite_step(c_mid, l, b, nl);
        assert(c1.out =~= b1.out);
        assert forall|k: int| 0 <= k < a1.out.len() implies line_ok(#[trigger] a1.out[k], k == a1.out.len() - 1) by {
            if k < a0.out.len() {
                assert(a1.out[k] == a0.out[k]);
                assert(line_ok(a0.out[k], k == a0.out.len() - 1));
            } else if k == a0.out.len() {
                assert(a1.out[k] == x);
            } else {
                assert(a1.out[k] == l);
            }
        }
    } else if rep {
        let x = id_line(a) + ending(l);
        lemma_ending_is_line_end(l);
        lemma_id_line_shape(a, ending(l));
        lemma_id_line_ok(a, ending(l));
        assert(a1.out =~= a0.out + seq![x]);
        lemma_scan_from_append(scan_start(), a0.out, seq![x], b, nl);
        lemma_scan_from_one(c0, x, b, nl);
        let c1 = rewrite_step(c0, x, b, nl);
        assert(c1.out =~= b1.out);
        if ending(l).len() == 0 {
            assert(l.last() != '\n');
        } else {
            assert(l.last() == '\n') by {
                if ending(l) == seq!['\n'] {
                } else {
                }
            }
        }
        assert forall|k: int| 0 <= k < a1.out.len() implies line_ok(#[trigger] a1.out[k], k == a1.out.len() - 1) by {
            if k < a0.out.len() {
                assert(a1.out[k] == a0.out[k]);
                assert(line_ok(a0.out[k], k == a0.out.len() - 1));
            } else {
                assert(a1.out[k] == x);
            }
        }
        assert(x.last() == '\n' <==> l.last() == '\n') by {
            if ending(l).len() == 0 {
                assert(x.last() == '"');
            } else {
                assert(x.last() == ending(l).last());
            }
        }
    } else {
        assert(a1.out =~= a0.out + seq![l]);
        lemma_scan_from_append(scan_start(), a0.out, seq![l], b, nl);
        lemma_scan_from_one(c0, l, b, nl);
        let c1 = rewrite_step(c0, l, b, nl);
        assert(c1.out =~= b1.out);
        assert forall|k: int| 0 <= k < a1.out.len() implies line_ok(#[trigger] a1.out[k], k == a1.out.len() - 1) by {
            if k < a0.out.len() {
                assert(a1.out[k] == a0.out[k]);
                assert(line_ok(a0.out[k], k == a0.out.len() - 1));
            } else {
                assert(a1.out[k] == l);
            }
        }
    }
    if j == 1 {
        assert(!a0.in_scene && !a0.written);
        assert(a1.out[0] == l);
    } else {
        assert(a1.out[0] == a0.out[0]);
    }
}

proof fn lemma_flatten_two(x: Seq<Seq<char>>, u: Seq<char>, v: Seq<char>)
    ensures
        flatten(x.push(u).push(v)) == flatten(x) + u + v,
{
    let xu = x.push(u);
    let xuv = xu.push(v);
    assert(xuv.drop_last() =~= xu);
    assert(xuv.last() == v);
    assert(xu.drop_last() =~= x);
    assert(xu.last() == u);
    assert(flatten(xu) == flatten(x) + u);
    assert(flatten(xuv) == flatten(xu) + v);
}

/// The line ending of a file whose first line, if any, has no carriage
/// return before its end.
proof fn lemma_plain_newline(t: Seq<char>)
    requires
        segments(t).len() > 0 ==> ending(segments(t)[0]) != seq!['\r', '\n'],
    ensures
        newline_of(t) == seq!['\n'],
{
}

/// Rewriting the id twice is rewriting it once to the second id: a copy
/// saved from a copy differs from that copy in its id alone. For files with
/// no carriage return and ids with no line break.
pub proof fn law_a_second_rewrite_only_swaps_the_id(text: Seq<char>, a: Seq<char>, b: Seq<char>)
    requires
        !text.contains('\r'),
        !a.contains('\n'),
        !b.contains('\n'),
    ensures
        with_scene_id(with_scene_id(text, a), b) == with_scene_id(text, b),
{
    let lines = segments(text);
    let n = lines.len() as int;
    let nl = seq!['\n'];
    lemma_segments_proper(text);
    lemma_segments_avoid(text, '\r');
    if n > 0 {
        assert(ending(lines[0]) != seq!['\r', '\n']) by {
            let f = lines[0];
            if f.len() >= 2 {
                assert(f[f.len() - 2] != '\r');
            }
            assert(ending(f).len() <= 1);
        }
    }
    lemma_plain_newline(text);
    assert(is_break(nl));
    lemma_lockstep(lines, a, b, nl, n);
    assert(lines.take(n) =~= lines);
    lemma_scan_is_scan_from(lines, a, nl);
    lemma_scan_is_scan_from(lines, b, nl);
    lemma_id_line_shape(a, nl);
    lemma_id_line_shape(b, nl);
    lemma_id_line_ok(a, nl);
    let sa = rewrite_scan(lines, a, nl);
    let sb = rewrite_scan(lines, b, nl);
    let sc = scan_from(scan_start(), sa.out, b, nl);
    let o = rewritten_lines(text, a);
    let t2 = flatten(o);
    if !(sa.in_scene && !sa.written) {
        assert(o == sa.out);
        lemma_flatten_proper(sa.out);
        lemma_plain_newline(t2);
        lemma_scan_is_scan_from(sa.out, b, nl);
        assert(rewritten_lines(t2, b) == sc.out);
        assert(rewritten_lines(text, b) == sb.out);
    } else if ending(lines.last()).len() != 0 {
        let x = id_line(a) + nl;
        assert(n > 0);
        assert(o == sa.out.push(x));
        assert(lines.last().last() == '\n') by {
            if ending(lines.last()) == seq!['\n'] {
            } else {
            }
        }
        assert forall|k: int| 0 <= k < o.len() implies line_ok(#[trigger] o[k], k == o.len() - 1) by {
            if k < sa.out.len() {
                assert(o[k] == sa.out[k]);
                assert(line_ok(sa.out[k], k == sa.out.len() - 1));
            } else {
                assert(o[k] == x);
            }
        }
        lemma_flatten_proper(o);
        assert(o[0] == lines[0]);
        lemma_plain_newline(t2);
        lemma_scan_is_scan_from(o, b, nl);
        assert(o =~= sa.out + seq![x]);
        lemma_scan_from_append(scan_start(), sa.out, seq![x], b, nl);
        lemma_scan_from_one(sc, x, b, nl);
        assert(rewritten_lines(t2, b) =~= sb.out.push(id_line(b) + nl));
        assert(rewritten_lines(text, b) =~= sb.out.push(id_line(b) + nl));
    } else {
        assert(n > 0);
        let l = lines.last();
        assert(l == lines[n - 1]);
        lemma_lockstep(lines, a, b, nl, n - 1);
        let take0 = lines.take(n - 1);
        assert(lines.drop_last() =~= take0);
        lemma_scan_is_scan_from(take0, a, nl);
        let a0 = scan_from(scan_start(), take0, a, nl);
        let b0 = scan_from(scan_start(), take0, b, nl);
        let c0 = scan_from(scan_start(), a0.out, b, nl);
        assert(sa == rewrite_step(a0, l, a, nl));
        assert(sb == rewrite_step(b0, l, b, nl));
        assert(sa.out == a0.out.push(l));
        assert(sb.out == b0.out.push(l));
        assert(line_ok(l, true));
        assert(l.last() != '\n');
        assert(l.last() != '\r') by {
            assert(lines[n - 1][l.len() - 1] != '\r');
        }
        let l2 = l + nl;
        assert(ending(l2) == nl) by {
            assert(l2[l2.len() - 2] == l.last());
        }
        assert(body(l2) =~= l);
        assert(body(l) =~= l);
        let x = id_line(a) + nl;
        let o2 = a0.out.push(l2).push(x);
        lemma_flatten_two(a0.out, l2, x);
        lemma_flatten_two(a0.out, l, nl + id_line(a) + nl);
        assert(o == a0.out.push(l).push(nl + id_line(a) + nl));
        assert(t2 == flatten(o2)) by {
            assert(flatten(a0.out) + l + (nl + id_line(a) + nl) =~= flatten(a0.out) + l2 + x);
        }
        assert(line_ok(l2, false)) by {
            assert forall|t: int| 0 <= t < l2.len() - 1 implies l2[t] != '\n' by {
                if t < l.len() - 1 {
                    assert(l2[t] == l[t]);
                } else {
                    assert(l2[t] == l.last());
                }
            }
        }
        assert forall|k: int| 0 <= k < o2.len() implies line_ok(#[trigger] o2[k], k == o2.len() - 1) by {
            if k < a0.out.len() {
                assert(o2[k] == a0.out[k]);
                assert(line_ok(a0.out[k], k == a0.out.len() - 1));
                if k == a0.out.len() - 1 {
                    assert(line_ok(lines[n - 2], false));
                }
            } else if k == a0.out.len() {
                assert(o2[k] == l2);
            } else {
                assert(o2[k] == x);
            }
        }
        lemma_flatten_proper(o2);
        if n > 1 {
            assert(o2[0] == lines[0]);
        } else {
            assert(o2[0] == l2);
        }
        lemma_plain_newline(t2);
        lemma_scan_is_scan_from(o2, b, nl);
        assert(o2 =~= a0.out + seq![l2, x]);
        lemma_scan_from_append(scan_start(), a0.out, seq![l2, x], b, nl);
        assert(seq![l2, x] =~= seq![l2] + seq![x]);
        lemma_scan_from_append(c0, seq![l2], seq![x], b, nl);
        lemma_scan_from_one(c0, l2, b, nl);
        let c_mid = rewrite_step(c0, l2, b, nl);
        lemma_scan_from_one(c_mid, x, b, nl);
        assert(c_mid.out == c0.out.push(l2));
        let c1 = rewrite_step(c_mid, x, b, nl);
        assert(c1.out == b0.out.push(l2).push(id_line(b) + nl));
        assert(rewritten_lines(t2, b) == c1.out);
        assert(rewritten_lines(text, b) == b0.out.push(l).push(nl + id_line(b) + nl));
        lemma_flatten_two(b0.out, l2, id_line(b) + nl);
        lemma_flatten_two(b0.out, l, nl + id_line(b) + nl);
        assert(flatten(b0.out) + l2 + (id_line(b) + nl) =~= flatten(b0.out) + l + (nl + id_line(b) + nl));
    }
}

/// The FNV-1a offset basis and prime.
pub const FNV_OFFSET: u64 = 0xcbf2_9ce4_8422_2325;
pub const FNV_PRIME: u64 = 0x0100_0000_01b3;
/// The multiplier that spreads the second half of a scene id.
pub const ID_SPREAD: u64 = 0x9e37_79b9_7f4a_7c15;

/// FNV-1a over `bytes`, in wrapping 64-bit arithmetic.
pub open spec fn fnv1a(bytes: Seq<u8>) -> u64
    decreases bytes.len(),
{
    if bytes.len() == 0 {
        FNV_OFFSET
    } else {
        vstd::wrapping::u64_specs::wrapping_mul(fnv1a(bytes.drop_last()) ^ (bytes.last() as u64), FNV_PRIME)
    }
}

/// `x` rotated left by seventeen bits.
pub open spec fn rotl17(x: u64) -> u64 {
    (x << 17u64) | (x >> 47u64)
}

/// The lower-case hexadecimal digit worth `d`, for `d < 16`.
pub open spec fn hex_digit(d: u64) -> char {
    if d < 10 {
        (48 + d) as char
    } else {
        (87 + d) as char
    }
}

/// The low `width` hexadecimal digits of `v`, most significant first.
pub open spec fn hex(v: u64, width: nat) -> Seq<char> {
    Seq::new(width, |k: int| hex_digit((v >> ((4 * (width - 1 - k)) as u64)) & 15u64))
}

/// The id a scene at `path` is given: a hash of the path's bytes laid out as
/// a version-4, variant-1 uuid, `xxxxxxxx-xxxx-4xxx-8xxx-xxxxxxxxxxxx`.
pub open spec fn scene_id_of(path: Seq<u8>) -> Seq<char> {
    let a = fnv1a(path);
    let b = vstd::wrapping::u64_specs::wrapping_mul(rotl17(a), ID_SPREAD);
    hex(a >> 32u64, 8) + seq!['-'] + hex((a >> 16u64) & 0xffffu64, 4) + seq!['-', '4'] + hex(
        a & 0x0fffu64,
        3,
    ) + seq!['-', '8'] + hex((b >> 52u64) & 0x0fffu64, 3) + seq!['-'] + hex(b & 0xffff_ffff_ffffu64, 12)
}

fn hex_digit_of(d: u64) -> (c: char)
    requires
        d < 16,
    ensures
        c == hex_digit(d),
{
    let point: u64 = if d < 10 {
        48 + d
    } else {
        87 + d
    };
    let b: u8 = point as u8;
    b as char
}

fn push_hex(out: &mut Vec<char>, v: u64, width: usize)
    requires
        width <= 16,
    ensures
        final(out)@ == old(out)@ + hex(v, width as nat),
{
    let ghost start = out@;
    let mut k: usize = 0;
    while k < width
        invariant
            width <= 16,
            k <= width,
            out@ == start + hex(v, width as nat).take(k as int),
        decreases width - k,
    {
        let shift: u64 = (4 * (width - 1 - k)) as u64;
        let d: u64 = (v >> shift) & 15;
        assert(d < 16) by (bit_vector)
            requires
                d == (v >> shift) & 15u64,
        ;
        out.push(hex_digit_of(d));
        k = k + 1;
        assert(hex(v, width as nat).take(k as int) =~= hex(v, width as nat).take(k - 1).push(
            hex(v, width as nat)[k - 1],
        ));
    }
    assert(hex(v, width as nat).take(width as int) =~= hex(v, width as nat));
}
/// The text of a new scene named by `id`: one root node, and the id.
pub open spec fn blank_scene_text(id: Seq<char>) -> Seq<char> {
    "# A new scene.\n[scene]\nformat = 1\nid = \""@ + id + "\"\n\n[[node]]\nname = \"Root\"\n"@
}

/// The smallest scene the editor opens: one root node, and an id.
pub fn blank_scene(id: &str) -> (text: String)
    ensures
        text@ == blank_scene_text(id@),
{
    let head = chars_of("# A new scene.\n[scene]\nformat = 1\nid = \"");
    let tail = chars_of("\"\n\n[[node]]\nname = \"Root\"\n");
    let middle = chars_of(id);
    let text = concat(&concat(&head, &middle), &tail);
    string_of(&text)
}

/// Whether `s` ends with `suffix`.
pub open spec fn has_suffix(s: Seq<char>, suffix: Seq<char>) -> bool {
    s.len() >= suffix.len() && s.skip(s.len() - suffix.len()) == suffix
}

/// The file a scene saved under `name` is written to: `name` itself when it
/// already ends in `.loom`, and `name.loom` otherwise.
pub open spec fn loom_file_of(name: Seq<char>) -> Seq<char> {
    if has_suffix(name, ".loom"@) {
        name
    } else {
        name + ".loom"@
    }
}

/// The file name a "save as" under `name` writes.
pub fn loom_file_name(name: &str) -> (file: String)
    ensures
        file@ == loom_file_of(name@),
{
    proof {
        reveal_strlit(".loom");
    }
    let n = chars_of(name);
    let ext = chars_of(".loom");
    let mut ends = n.len() >= ext.len();
    if ends {
        let total = n.len();
        let start = total - ext.len();
        let mut k: usize = 0;
        while k < ext.len()
            invariant
                n@ == name@,
                ext@ == ".loom"@,
                n@.len() >= ext@.len(),
                total == n@.len(),
                start == n@.len() - ext@.len(),
                k <= ext@.len(),
                ends == forall|t: int| 0 <= t < k ==> n@[start + t] == ext@[t],
            decreases ext@.len() - k,
        {
            if n[start + k] != ext[k] {
                ends = false;
            }
            k = k + 1;
        }
        assert(ends == (n@.skip(start as int) =~= ext@));
    }
    if ends {
        string_of(&n)
    } else {
        let mut out = n.clone();
        let mut k: usize = 0;
        while k < ext.len()
            invariant
                n@ == name@,
                k <= ext@.len(),
                out@ == n@ + ext@.take(k as int),
            decreases ext@.len() - k,
        {
            out.push(ext[k]);
            k = k + 1;
            assert(ext@.take(k as int) =~= ext@.take(k - 1).push(ext@[k - 1]));
        }
        assert(ext@.take(ext@.len() as int) =~= ext@);
        string_of(&out)
    }
}

/// A scene id derived from where the file is: stable, unique per path, and
/// shaped like a uuid.
pub fn scene_id_for(path: &str) -> (id: String)
    ensures
        id@ == scene_id_of(path.spec_bytes()),
{
    let bytes = path.as_bytes();
    let mut hash: u64 = FNV_OFFSET;
    let mut i: usize = 0;
    while i < bytes.len()
        invariant
            bytes@ == path.spec_bytes(),
            i <= bytes@.len(),
            hash == fnv1a(bytes@.take(i as int)),
        decreases bytes@.len() - i,
    {
        assert(bytes@.take(i + 1).drop_last() =~= bytes@.take(i as int));
        hash = (hash ^ (bytes[i] as u64)).wrapping_mul(FNV_PRIME);
        i = i + 1;
    }
    assert(bytes@.take(bytes@.len() as int) =~= bytes@);
    let a = hash;
    let b = ((a << 17) | (a >> 47)).wrapping_mul(ID_SPREAD);
    let mut out: Vec<char> = Vec::new();
    push_hex(&mut out, a >> 32, 8);
    out.push('-');
    push_hex(&mut out, (a >> 16) & 0xffff, 4);
    out.push('-');
    out.push('4');
    push_hex(&mut out, a & 0x0fff, 3);
    out.push('-');
    out.push('8');
    push_hex(&mut out, (b >> 52) & 0x0fff, 3);
    out.push('-');
    push_hex(&mut out, b & 0xffff_ffff_ffff, 12);
    assert(out@ =~= scene_id_of(path.spec_bytes()));
    string_of(&out)
}

/// Whether `c` is a lower-case hexadecimal digit.
pub open spec fn is_lower_hex(c: char) -> bool {
    ('0' <= c <= '9') || ('a' <= c <= 'f')
}

proof fn lemma_hex_digits(v: u64, width: nat)
    ensures
        hex(v, width).len() == width,
        forall|k: int| 0 <= k < width ==> is_lower_hex(#[trigger] hex(v, width)[k]),
{
    assert forall|k: int| 0 <= k < width implies is_lower_hex(#[trigger] hex(v, width)[k]) by {
        let s = (4 * (width - 1 - k)) as u64;
        assert(((v >> s) & 15u64) < 16u64) by (bit_vector);
    }
}

/// A scene id is shaped like a uuid: thirty-two lower-case hexadecimal digits
/// in groups of 8, 4, 4, 4 and 12, with the version digit `4` and the variant
/// digit `8` where a version-4 uuid has them.
pub proof fn law_a_scene_id_is_uuid_shaped(path: Seq<u8>)
    ensures
        scene_id_of(path).len() == 36,
        scene_id_of(path)[8] == '-' && scene_id_of(path)[13] == '-' && scene_id_of(path)[18] == '-'
            && scene_id_of(path)[23] == '-',
        scene_id_of(path)[14] == '4' && scene_id_of(path)[19] == '8',
        forall|k: int|
            0 <= k < 36 && k != 8 && k != 13 && k != 18 && k != 23 ==> is_lower_hex(#[trigger] scene_id_of(path)[k]),
{
    let a = fnv1a(path);
    let b = vstd::wrapping::u64_specs::wrapping_mul(rotl17(a), ID_SPREAD);
    let h1 = hex(a >> 32u64, 8);
    let h2 = hex((a >> 16u64) & 0xffffu64, 4);
    let h3 = hex(a & 0x0fffu64, 3);
    let h4 = hex((b >> 52u64) & 0x0fffu64, 3);
    let h5 = hex(b & 0xffff_ffff_ffffu64, 12);
    lemma_hex_digits(a >> 32u64, 8);
    lemma_hex_digits((a >> 16u64) & 0xffffu64, 4);
    lemma_hex_digits(a & 0x0fffu64, 3);
    lemma_hex_digits((b >> 52u64) & 0x0fffu64, 3);
    lemma_hex_digits(b & 0xffff_ffff_ffffu64, 12);
    let id = scene_id_of(path);
    assert forall|k: int|
        0 <= k < 36 && k != 8 && k != 13 && k != 18 && k != 23 implies is_lower_hex(#[trigger] id[k]) by {
        if k < 8 {
            assert(id[k] == h1[k]);
        } else if k < 13 {
            assert(id[k] == h2[k - 9]);
        } else if k == 14 {
        } else if k < 18 {
            assert(id[k] == h3[k - 15]);
        } else if k == 19 {
        } else if k < 23 {
            assert(id[k] == h4[k - 20]);
        } else {
            assert(id[k] == h5[k - 24]);
        }
    }
}

} // verus!
