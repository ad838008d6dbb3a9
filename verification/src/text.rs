//! Line-oriented text primitives: whitespace trimming, splitting a file into
//! lines, and joining lines back together.

use vstd::prelude::*;
use vstd::string::*;

verus! {

/// The whitespace characters that trimming removes: the ASCII blanks that can
/// surround keys, values and comment markers in an env file.
pub open spec fn is_ws_char(c: char) -> bool {
    c == ' ' || c == '\t' || c == '\r' || c == '\n' || c == '\u{b}' || c == '\u{c}'
}

/// Executable counterpart of `is_ws_char`.
pub fn is_ws(c: char) -> (r: bool)
    ensures
        r == is_ws_char(c),
{
    c == ' ' || c == '\t' || c == '\r' || c == '\n' || c == '\u{b}' || c == '\u{c}'
}

/// `s` without its leading whitespace.
pub open spec fn drop_leading_ws(s: Seq<char>) -> Seq<char>
    decreases s.len(),
{
    if s.len() == 0 {
        s
    } else if is_ws_char(s[0]) {
        drop_leading_ws(s.drop_first())
    } else {
        s
    }
}

/// `s` without its trailing whitespace.
pub open spec fn drop_trailing_ws(s: Seq<char>) -> Seq<char>
    decreases s.len(),
{
    if s.len() == 0 {
        s
    } else if is_ws_char(s.last()) {
        drop_trailing_ws(s.drop_last())
    } else {
        s
    }
}

/// `s` without leading and trailing whitespace.
pub open spec fn trim_spec(s: Seq<char>) -> Seq<char> {
    drop_trailing_ws(drop_leading_ws(s))
}

/// The index of the first occurrence of `c` in `s`, or `s.len()` if `c` does
/// not occur.
pub open spec fn idx_of_first(s: Seq<char>, c: char) -> int
    decreases s.len(),
{
    if s.len() == 0 {
        0
    } else if s[0] == c {
        0
    } else {
        1 + idx_of_first(s.drop_first(), c)
    }
}

/// The lines of `s`, split at `'\n'`; a trailing newline yields no extra
/// empty line, matching how env files are read line by line.
pub open spec fn split_lines_spec(s: Seq<char>) -> Seq<Seq<char>>
    decreases s.len(),
{
    if s.len() == 0 {
        Seq::empty()
    } else if !s.contains('\n') {
        seq![s]
    } else {
        let i = idx_of_first(s, '\n');
        if 0 <= i < s.len() {
            seq![s.take(i)] + split_lines_spec(s.skip(i + 1))
        } else {
            seq![s]
        }
    }
}

/// The lines of `ls` joined with single `'\n'` separators.
pub open spec fn join_lines(ls: Seq<Seq<char>>) -> Seq<char>
    decreases ls.len(),
{
    if ls.len() == 0 {
        Seq::empty()
    } else if ls.len() == 1 {
        ls[0]
    } else {
        ls[0] + seq!['\n'] + join_lines(ls.drop_first())
    }
}

/// The character sequences of a vector of strings.
pub open spec fn views_of(v: Seq<String>) -> Seq<Seq<char>> {
    v.map_values(|l: String| l@)
}

/// `views_of` commutes with appending one string.
pub proof fn lemma_views_push(v: Seq<String>, x: String)
    ensures
        views_of(v.push(x)) == views_of(v).push(x@),
{
    assert(views_of(v.push(x)) =~= views_of(v).push(x@));
}

/// A sequence contains an element iff its head is the element or its tail
/// contains it.
pub proof fn lemma_contains_head<A>(s: Seq<A>, x: A)
    requires
        s.len() > 0,
    ensures
        s.contains(x) <==> (s[0] == x || s.drop_first().contains(x)),
{
    if s.contains(x) {
        let i = choose|i: int| 0 <= i < s.len() && s[i] == x;
        if i > 0 {
            assert(s.drop_first()[i - 1] == x);
        }
    }
    if s.drop_first().contains(x) {
        let i = choose|i: int| 0 <= i < s.drop_first().len() && s.drop_first()[i] == x;
        assert(s[i + 1] == x);
    }
}

/// `idx_of_first` points at the first occurrence of `c`, if there is one, and
/// at the end of `s` otherwise.
pub proof fn lemma_idx_of_first(s: Seq<char>, c: char)
    ensures
        0 <= idx_of_first(s, c) <= s.len(),
        s.contains(c) ==> idx_of_first(s, c) < s.len() && s[idx_of_first(s, c)] == c,
        forall|j: int| 0 <= j < idx_of_first(s, c) ==> s[j] != c,
        !s.contains(c) ==> idx_of_first(s, c) == s.len(),
    decreases s.len(),
{
    if s.len() == 0 {
    } else if s[0] == c {
        assert(s.contains(c));
    } else {
        lemma_idx_of_first(s.drop_first(), c);
        lemma_contains_head(s, c);
        let i = idx_of_first(s, c);
        assert forall|j: int| 0 <= j < i implies s[j] != c by {
            if j > 0 {
                assert(s.drop_first()[j - 1] == s[j]);
            }
        }
        if s.contains(c) {
            assert(s.drop_first()[i - 1] == s[i]);
        }
    }
}

/// If `c` first occurs at index `i`, then `idx_of_first` equals `i`.
pub proof fn lemma_idx_of_first_is(s: Seq<char>, c: char, i: int)
    requires
        0 <= i < s.len(),
        s[i] == c,
        forall|j: int| 0 <= j < i ==> s[j] != c,
    ensures
        idx_of_first(s, c) == i,
    decreases s.len(),
{
    if i == 0 {
    } else {
        assert(s[0] != c);
        assert(s.drop_first()[i - 1] == c);
        assert forall|j: int| 0 <= j < i - 1 implies s.drop_first()[j] != c by {
            assert(s.drop_first()[j] == s[j + 1]);
        }
        lemma_idx_of_first_is(s.drop_first(), c, i - 1);
    }
}

/// Unfolds one step of `split_lines_spec` around the first newline of the
/// suffix `s.skip(start)`.
pub proof fn lemma_split_step(s: Seq<char>, start: int, j: int)
    requires
        0 <= start <= j < s.len(),
        s[j] == '\n',
        forall|p: int| start <= p < j ==> s[p] != '\n',
    ensures
        split_lines_spec(s.skip(start)) == seq![s.subrange(start, j)] + split_lines_spec(
            s.skip(j + 1),
        ),
{
    let t = s.skip(start);
    assert(t[j - start] == '\n');
    assert(t.contains('\n'));
    assert forall|q: int| 0 <= q < j - start implies t[q] != '\n' by {
        assert(t[q] == s[start + q]);
    }
    lemma_idx_of_first_is(t, '\n', j - start);
    assert(t.take(j - start) =~= s.subrange(start, j));
    assert(t.skip(j - start + 1) =~= s.skip(j + 1));
}

/// Appending one line to a joined text inserts one separator.
pub proof fn lemma_join_snoc(ls: Seq<Seq<char>>, x: Seq<char>)
    ensures
        join_lines(ls.push(x)) == if ls.len() == 0 {
            x
        } else {
            join_lines(ls) + seq!['\n'] + x
        },
    decreases ls.len(),
{
    let p = ls.push(x);
    if ls.len() == 0 {
        assert(p.len() == 1);
        assert(p[0] == x);
    } else {
        assert(p.len() >= 2);
        assert(p[0] == ls[0]);
        assert(p.drop_first() =~= ls.drop_first().push(x));
        lemma_join_snoc(ls.drop_first(), x);
        if ls.len() == 1 {
            assert(join_lines(ls) == ls[0]);
            assert(join_lines(p) == p[0] + seq!['\n'] + join_lines(p.drop_first()));
            assert(join_lines(p.drop_first()) == x);
        } else {
            assert(join_lines(ls) == ls[0] + seq!['\n'] + join_lines(ls.drop_first()));
            assert(join_lines(p) == ls[0] + seq!['\n'] + (join_lines(ls.drop_first()) + seq![
                '\n',
            ] + x));
            assert(ls[0] + seq!['\n'] + (join_lines(ls.drop_first()) + seq!['\n'] + x) =~= (ls[0]
                + seq!['\n'] + join_lines(ls.drop_first())) + seq!['\n'] + x);
        }
    }
}

/// No line produced by `split_lines_spec` contains a newline.
pub proof fn lemma_split_no_nl(s: Seq<char>)
    ensures
        forall|i: int|
            0 <= i < split_lines_spec(s).len() ==> !(#[trigger] split_lines_spec(s)[i]).contains(
                '\n',
            ),
    decreases s.len(),
{
    lemma_idx_of_first(s, '\n');
    if s.len() == 0 {
    } else if !s.contains('\n') {
        assert forall|i: int| 0 <= i < split_lines_spec(s).len() implies !(
        #[trigger] split_lines_spec(s)[i]).contains('\n') by {
            assert(split_lines_spec(s)[i] == s);
        }
    } else {
        let i = idx_of_first(s, '\n');
        let head = s.take(i);
        lemma_split_no_nl(s.skip(i + 1));
        assert forall|q: int| 0 <= q < head.len() implies head[q] != '\n' by {
            assert(head[q] == s[q]);
        }
        assert(!head.contains('\n'));
        assert forall|p: int| 0 <= p < split_lines_spec(s).len() implies !(
        #[trigger] split_lines_spec(s)[p]).contains('\n') by {
            if p == 0 {
                assert(split_lines_spec(s)[p] == head);
            } else {
                assert(split_lines_spec(s)[p] == split_lines_spec(s.skip(i + 1))[p - 1]);
            }
        }
    }
}

/// Splitting a joined text recovers the lines, except that one trailing empty
/// line disappears, exactly as it would on a final newline of a file.
pub proof fn lemma_split_join(rs: Seq<Seq<char>>)
    requires
        forall|i: int| 0 <= i < rs.len() ==> !(#[trigger] rs[i]).contains('\n'),
    ensures
        split_lines_spec(join_lines(rs)) == if rs.len() > 0 && rs.last().len() == 0 {
            rs.drop_last()
        } else {
            rs
        },
    decreases rs.len(),
{
    let j = join_lines(rs);
    if rs.len() == 0 {
        assert(split_lines_spec(j) =~= rs);
    } else if rs.len() == 1 {
        assert(j == rs[0]);
        assert(!rs[0].contains('\n'));
        if rs[0].len() == 0 {
            assert(split_lines_spec(j) =~= rs.drop_last());
        } else {
            assert(split_lines_spec(j) =~= seq![rs[0]]);
            assert(seq![rs[0]] =~= rs);
        }
    } else {
        let rest = rs.drop_first();
        assert(j == rs[0] + seq!['\n'] + join_lines(rest));
        let n0 = rs[0].len() as int;
        assert(j[n0] == '\n');
        assert forall|p: int| 0 <= p < n0 implies j[p] != '\n' by {
            assert(j[p] == rs[0][p]);
            assert(rs[0].contains(rs[0][p]) ==> true);
            if j[p] == '\n' {
                assert(rs[0][p] == '\n');
                assert(rs[0].contains('\n'));
            }
        }
        assert(j.len() > n0);
        lemma_split_step(j, 0, n0);
        assert(j.skip(0) =~= j);
        assert(j.subrange(0, n0) =~= rs[0]);
        assert(j.skip(n0 + 1) =~= join_lines(rest));
        assert forall|i: int| 0 <= i < rest.len() implies !(#[trigger] rest[i]).contains('\n') by {
            assert(rest[i] == rs[i + 1]);
        }
        lemma_split_join(rest);
        assert(rest.len() > 0);
        assert(rs.last() == rest.last());
        if rest.last().len() == 0 {
            assert(split_lines_spec(j) == seq![rs[0]] + rest.drop_last());
            assert(seq![rs[0]] + rest.drop_last() =~= rs.drop_last());
        } else {
            assert(split_lines_spec(j) == seq![rs[0]] + rest);
            assert(seq![rs[0]] + rest =~= rs);
        }
    }
}

/// First index of `c` in `s`, if `c` occurs at all.
pub fn index_of_char(s: &str, c: char) -> (r: Option<usize>)
    ensures
        match r {
            Some(i) => s@.contains(c) && i == idx_of_first(s@, c),
            None => !s@.contains(c),
        },
{
    let n = s.unicode_len();
    let mut j: usize = 0;
    while j < n
        invariant
            0 <= j <= n,
            n == s@.len(),
            forall|p: int| 0 <= p < j ==> s@[p] != c,
        decreases n - j,
    {
        if s.get_char(j) == c {
            proof {
                lemma_idx_of_first_is(s@, c, j as int);
            }
            return Some(j);
        }
        j += 1;
    }
    proof {
        if s@.contains(c) {
            let i = choose|i: int| 0 <= i < s@.len() && s@[i] == c;
            assert(s@[i] != c);
        }
    }
    None
}

/// Remove leading and trailing whitespace from `line`.
pub fn trim(line: &str) -> (r: &str)
    ensures
        r@ == trim_spec(line@),
{
    let n = line.unicode_len();
    let mut a: usize = 0;
    while a < n && is_ws(line.get_char(a))
        invariant
            0 <= a <= n,
            n == line@.len(),
            forall|j: int| 0 <= j < a ==> is_ws_char(line@[j]),
        decreases n - a,
    {
        a += 1;
    }
    let mut b: usize = n;
    while b > a && is_ws(line.get_char(b - 1))
        invariant
            a <= b <= n,
            n == line@.len(),
            forall|j: int| b <= j < n ==> is_ws_char(line@[j]),
        decreases b,
    {
        b -= 1;
    }
    let r = line.substring_char(a, b);
    proof {
        lemma_drop_leading_at(line@, a as int);
        let u = line@.skip(a as int);
        lemma_drop_trailing_at(u, b - a as int);
        assert(u.take(b - a as int) =~= line@.subrange(a as int, b as int));
    }
    r
}

/// If everything before `a` is whitespace and `a` is the first index that is
/// not, then dropping leading whitespace is exactly `s.skip(a)`.
pub proof fn lemma_drop_leading_at(s: Seq<char>, a: int)
    requires
        0 <= a <= s.len(),
        forall|j: int| 0 <= j < a ==> is_ws_char(s[j]),
        a < s.len() ==> !is_ws_char(s[a]),
    ensures
        drop_leading_ws(s) == s.skip(a),
    decreases a,
{
    if a == 0 {
        assert(s.skip(0) =~= s);
    } else {
        assert(is_ws_char(s[0]));
        assert(s.len() > 0);
        let t = s.drop_first();
        assert forall|j: int| 0 <= j < a - 1 implies is_ws_char(t[j]) by {
            assert(t[j] == s[j + 1]);
        }
        if a - 1 < t.len() {
            assert(t[a - 1] == s[a]);
        }
        lemma_drop_leading_at(t, a - 1);
        assert(t.skip(a - 1) =~= s.skip(a));
    }
}

/// If everything from `b` on is whitespace and `b` is just past the last
/// index that is not, then dropping trailing whitespace is exactly
/// `s.take(b)`.
pub proof fn lemma_drop_trailing_at(s: Seq<char>, b: int)
    requires
        0 <= b <= s.len(),
        forall|j: int| b <= j < s.len() ==> is_ws_char(s[j]),
        b > 0 ==> !is_ws_char(s[b - 1]),
    ensures
        drop_trailing_ws(s) == s.take(b),
    decreases s.len() - b,
{
    if b == s.len() {
        if s.len() == 0 {
            assert(s.take(0) =~= s);
        } else {
            assert(!is_ws_char(s.last()));
            assert(s.take(b) =~= s);
        }
    } else {
        assert(is_ws_char(s[s.len() - 1]));
        assert(s.len() > 0);
        let t = s.drop_last();
        assert forall|j: int| b <= j < t.len() implies is_ws_char(t[j]) by {
            assert(t[j] == s[j]);
        }
        if b > 0 {
            assert(t[b - 1] == s[b - 1]);
        }
        lemma_drop_trailing_at(t, b);
        assert(t.take(b) =~= s.take(b));
    }
}

/// Dropping leading whitespace never grows the text and leaves a sequence
/// that is empty or starts with a non-whitespace character.
pub proof fn lemma_drop_leading_props(s: Seq<char>)
    ensures
        drop_leading_ws(s).len() <= s.len(),
        drop_leading_ws(s).len() == 0 || !is_ws_char(drop_leading_ws(s)[0]),
    decreases s.len(),
{
    if s.len() > 0 && is_ws_char(s[0]) {
        lemma_drop_leading_props(s.drop_first());
    }
}

/// Dropping trailing whitespace keeps a prefix of the text, one that is empty
/// or ends with a non-whitespace character.
pub proof fn lemma_drop_trailing_props(s: Seq<char>)
    ensures
        drop_trailing_ws(s).len() <= s.len(),
        drop_trailing_ws(s).len() == 0 || !is_ws_char(drop_trailing_ws(s).last()),
        forall|i: int|
            0 <= i < drop_trailing_ws(s).len() ==> #[trigger] drop_trailing_ws(s)[i] == s[i],
    decreases s.len(),
{
    if s.len() > 0 && is_ws_char(s.last()) {
        lemma_drop_trailing_props(s.drop_last());
        assert forall|i: int|
            0 <= i < drop_trailing_ws(s).len() implies #[trigger] drop_trailing_ws(s)[i]
            == s[i] by {
            assert(drop_trailing_ws(s)[i] == s.drop_last()[i]);
        }
    }
}

/// If the text starts with a non-whitespace character, dropping trailing
/// whitespace keeps that first character.
pub proof fn lemma_drop_trailing_keeps_head(s: Seq<char>)
    requires
        s.len() > 0,
        !is_ws_char(s[0]),
    ensures
        drop_trailing_ws(s).len() > 0,
        drop_trailing_ws(s)[0] == s[0],
    decreases s.len(),
{
    if is_ws_char(s.last()) {
        assert(s.len() > 1);
        assert(s.drop_last()[0] == s[0]);
        lemma_drop_trailing_keeps_head(s.drop_last());
    }
}

/// Any character of the leading-whitespace-trimmed text occurs in the text,
/// and a non-whitespace character of the text survives the trimming.
pub proof fn lemma_drop_leading_contains(s: Seq<char>, c: char)
    ensures
        drop_leading_ws(s).contains(c) ==> s.contains(c),
        s.contains(c) && !is_ws_char(c) ==> drop_leading_ws(s).contains(c),
    decreases s.len(),
{
    if s.len() > 0 && is_ws_char(s[0]) {
        lemma_drop_leading_contains(s.drop_first(), c);
        lemma_contains_head(s, c);
        if s.contains(c) && !is_ws_char(c) {
            assert(s[0] != c);
        }
    }
}

/// The same for trailing whitespace.
pub proof fn lemma_drop_trailing_contains(s: Seq<char>, c: char)
    ensures
        drop_trailing_ws(s).contains(c) ==> s.contains(c),
        s.contains(c) && !is_ws_char(c) ==> drop_trailing_ws(s).contains(c),
    decreases s.len(),
{
    if s.len() > 0 && is_ws_char(s.last()) {
        lemma_drop_trailing_contains(s.drop_last(), c);
        if drop_trailing_ws(s).contains(c) {
            let i = choose|i: int|
                0 <= i < s.drop_last().len() && s.drop_last()[i] == c;
            assert(s[i] == c);
        }
        if s.contains(c) && !is_ws_char(c) {
            let i = choose|i: int| 0 <= i < s.len() && s[i] == c;
            assert(s.last() != c);
            assert(i < s.len() - 1);
            assert(s.drop_last()[i] == c);
        }
    }
}

/// Any character of the trimmed text occurs in the text, and a
/// non-whitespace character of the text survives trimming.
pub proof fn lemma_trim_contains(s: Seq<char>, c: char)
    ensures
        trim_spec(s).contains(c) ==> s.contains(c),
        s.contains(c) && !is_ws_char(c) ==> trim_spec(s).contains(c),
{
    lemma_drop_leading_contains(s, c);
    lemma_drop_trailing_contains(drop_leading_ws(s), c);
}

/// The trimmed text never grows, and it is empty or bare of whitespace at
/// both ends; its first character is the first non-blank one of the text.
pub proof fn lemma_trim_props(s: Seq<char>)
    ensures
        trim_spec(s).len() <= s.len(),
        trim_spec(s).len() == 0 || !is_ws_char(trim_spec(s)[0]),
        trim_spec(s).len() == 0 || !is_ws_char(trim_spec(s).last()),
{
    lemma_drop_leading_props(s);
    lemma_drop_trailing_props(drop_leading_ws(s));
}

/// Trimming text that is already bare of whitespace at both ends changes
/// nothing.
pub proof fn lemma_trim_of_clean(s: Seq<char>)
    requires
        s.len() > 0 ==> !is_ws_char(s[0]) && !is_ws_char(s.last()),
    ensures
        trim_spec(s) == s,
{
}

/// Trimming is idempotent.
pub proof fn lemma_trim_idem(s: Seq<char>)
    ensures
        trim_spec(trim_spec(s)) == trim_spec(s),
{
    lemma_trim_props(s);
    lemma_trim_of_clean(trim_spec(s));
}

/// Split `content` into lines at `'\n'`.
pub fn split_lines(content: &str) -> (r: Vec<String>)
    ensures
        views_of(r@) == split_lines_spec(content@),
{
    let n = content.unicode_len();
    let mut out: Vec<String> = Vec::new();
    let mut start: usize = 0;
    let mut j: usize = 0;
    proof {
        assert(content@.skip(0) =~= content@);
        assert(views_of(out@) + split_lines_spec(content@) =~= split_lines_spec(content@));
    }
    while j < n
        invariant
            0 <= start <= j <= n,
            n == content@.len(),
            forall|p: int| start <= p < j ==> content@[p] != '\n',
            split_lines_spec(content@) == views_of(out@) + split_lines_spec(
                content@.skip(start as int),
            ),
        decreases n - j,
    {
        let c = content.get_char(j);
        if c == '\n' {
            let line = content.substring_char(start, j).to_owned();
            proof {
                lemma_split_step(content@, start as int, j as int);
                lemma_views_push(out@, line);
                assert(views_of(out@) + (seq![line@] + split_lines_spec(content@.skip(j + 1)))
                    =~= views_of(out@).push(line@) + split_lines_spec(content@.skip(j + 1)));
            }
            out.push(line);
            start = j + 1;
        }
        j += 1;
    }
    if start < n {
        let line = content.substring_char(start, n).to_owned();
        proof {
            let t = content@.skip(start as int);
            assert forall|q: int| 0 <= q < t.len() implies t[q] != '\n' by {
                assert(t[q] == content@[start + q]);
            }
            if t.contains('\n') {
                let q = choose|q: int| 0 <= q < t.len() && t[q] == '\n';
                assert(t[q] != '\n');
            }
            assert(t.len() > 0);
            assert(split_lines_spec(t) == seq![t]);
            assert(line@ =~= t);
            lemma_views_push(out@, line);
            assert(views_of(out@) + seq![t] =~= views_of(out@).push(line@));
        }
        out.push(line);
    } else {
        proof {
            assert(content@.skip(start as int) =~= Seq::<char>::empty());
            assert(split_lines_spec(Seq::<char>::empty()) =~= Seq::<Seq<char>>::empty());
            assert(views_of(out@) + Seq::<Seq<char>>::empty() =~= views_of(out@));
        }
    }
    out
}

/// Join `lines` with `'\n'` separators, the inverse of `split_lines` up to a
/// trailing empty line.
pub fn join_with_newlines(lines: &Vec<String>) -> (r: String)
    ensures
        r@ == join_lines(views_of(lines@)),
{
    let mut out = String::new();
    let mut i: usize = 0;
    while i < lines.len()
        invariant
            0 <= i <= lines@.len(),
            out@ == join_lines(views_of(lines@).take(i as int)),
        decreases lines@.len() - i,
    {
        if i > 0 {
            out.append("\n");
        }
        out.append(lines[i].as_str());
        proof {
            let views = views_of(lines@);
            reveal_strlit("\n");
            assert("\n"@ =~= seq!['\n']);
            lemma_join_snoc(views.take(i as int), views[i as int]);
            assert(views.take(i as int).push(views[i as int]) =~= views.take(i as int + 1));
            assert(views[i as int] == lines@[i as int]@);
            if i == 0 {
                assert(views.take(0).len() == 0);
                assert(Seq::<char>::empty() + views[0] =~= views[0]);
            }
        }
        i += 1;
    }
    proof {
        assert(views_of(lines@).take(lines@.len() as int) =~= views_of(lines@));
    }
    out
}

} // verus!
