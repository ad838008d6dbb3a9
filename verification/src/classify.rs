//! The line classifier: turns the text of an env file into a sequence of
//! classified lines (blank, comment, `KEY=value`), applying the
//! comment-retention policy, and extracts the keys.

use vstd::prelude::*;
use vstd::string::*;
use crate::text::{
    drop_leading_ws, idx_of_first, index_of_char, is_ws_char, lemma_drop_trailing_keeps_head,
    lemma_idx_of_first, lemma_trim_contains, lemma_trim_idem, lemma_trim_of_clean,
    lemma_trim_props, split_lines, split_lines_spec, trim, trim_spec, views_of,
};

verus! {

/// Ghost counterpart of `ClassifiedLine`, over character sequences.
pub enum LineView {
    Blank,
    Comment(Seq<char>),
    KeyOnly(Seq<char>),
    KeyValue(Seq<char>, Seq<char>),
}

/// One classified line of an env file.
#[derive(Debug, PartialEq, Eq)]
pub enum ClassifiedLine {
    /// A line that is empty once trimmed; kept so that spacing survives.
    Blank,
    /// A comment line, kept verbatim; only produced when comments are
    /// retained.
    Comment(String),
    /// A `KEY=value` line reduced to its key.
    KeyOnly(String),
    /// A `KEY=value` line with its key and its full trimmed text.
    KeyValue(String, String),
}

impl View for ClassifiedLine {
    type V = LineView;

    open spec fn view(&self) -> LineView {
        match self {
            ClassifiedLine::Blank => LineView::Blank,
            ClassifiedLine::Comment(c) => LineView::Comment(c@),
            ClassifiedLine::KeyOnly(k) => LineView::KeyOnly(k@),
            ClassifiedLine::KeyValue(k, t) => LineView::KeyValue(k@, t@),
        }
    }
}

/// Is `line` blank once trimmed?
pub open spec fn is_blank_line(line: Seq<char>) -> bool {
    trim_spec(line).len() == 0
}

/// Is `line` a comment: does its first non-blank character read `#`?
pub open spec fn is_comment_line(line: Seq<char>) -> bool {
    trim_spec(line).len() > 0 && trim_spec(line)[0] == '#'
}

/// The key of `line`: the trimmed text before the first `=` of the trimmed
/// line; `None` for blank, comment and malformed lines.
pub open spec fn line_key(line: Seq<char>) -> Option<Seq<char>> {
    let t = trim_spec(line);
    if t.len() == 0 {
        None
    } else if t[0] == '#' {
        None
    } else if t.contains('=') {
        Some(trim_spec(t.take(idx_of_first(t, '='))))
    } else {
        None
    }
}

/// A line that is neither blank nor comment nor `KEY=value`: it carries no
/// `=` and the classifier drops it silently.
pub open spec fn is_malformed_line(line: Seq<char>) -> bool {
    !is_blank_line(line) && !is_comment_line(line) && !trim_spec(line).contains('=')
}

/// How one line classifies, if it is kept at all.
pub open spec fn classify_line_spec(line: Seq<char>, keep_comments: bool) -> Option<LineView> {
    let t = trim_spec(line);
    if t.len() == 0 {
        Some(LineView::Blank)
    } else if t[0] == '#' {
        if keep_comments {
            Some(LineView::Comment(line))
        } else {
            None
        }
    } else if t.contains('=') {
        Some(LineView::KeyValue(trim_spec(t.take(idx_of_first(t, '='))), t))
    } else {
        None
    }
}

/// The classified lines of a line sequence.
pub open spec fn classify_lines(ls: Seq<Seq<char>>, keep_comments: bool) -> Seq<LineView>
    decreases ls.len(),
{
    if ls.len() == 0 {
        Seq::empty()
    } else {
        match classify_line_spec(ls[0], keep_comments) {
            Some(v) => seq![v] + classify_lines(ls.drop_first(), keep_comments),
            None => classify_lines(ls.drop_first(), keep_comments),
        }
    }
}

/// The classified lines of a whole file.
pub open spec fn classify_spec(content: Seq<char>, keep_comments: bool) -> Seq<LineView> {
    classify_lines(split_lines_spec(content), keep_comments)
}

/// The keys of a line sequence, in order, duplicates kept.
pub open spec fn keys_of_lines(ls: Seq<Seq<char>>) -> Seq<Seq<char>>
    decreases ls.len(),
{
    if ls.len() == 0 {
        Seq::empty()
    } else {
        match line_key(ls[0]) {
            Some(k) => seq![k] + keys_of_lines(ls.drop_first()),
            None => keys_of_lines(ls.drop_first()),
        }
    }
}

/// The keys of `content`, in order of first appearance, duplicates kept.
pub open spec fn key_seq_of(content: Seq<char>) -> Seq<Seq<char>> {
    keys_of_lines(split_lines_spec(content))
}

/// The set of keys of `content`.
pub open spec fn key_set_of(content: Seq<char>) -> Set<Seq<char>> {
    key_seq_of(content).to_set()
}

/// The shape every extracted key has: trimmed, free of `=` and of newlines,
/// and not opening a comment.
pub open spec fn wf_key(k: Seq<char>) -> bool {
    &&& trim_spec(k) == k
    &&& !k.contains('=')
    &&& !k.contains('\n')
    &&& (k.len() > 0 ==> k[0] != '#')
}

/// Classification distributes over concatenation of line sequences.
pub proof fn lemma_classify_lines_concat(a: Seq<Seq<char>>, b: Seq<Seq<char>>, keep_comments: bool)
    ensures
        classify_lines(a + b, keep_comments) == classify_lines(a, keep_comments) + classify_lines(
            b,
            keep_comments,
        ),
    decreases a.len(),
{
    if a.len() == 0 {
        assert(a + b =~= b);
        assert(classify_lines(a, keep_comments) + classify_lines(b, keep_comments)
            =~= classify_lines(b, keep_comments));
    } else {
        assert((a + b)[0] == a[0]);
        assert((a + b).len() > 0);
        assert((a + b).drop_first() =~= a.drop_first() + b);
        lemma_classify_lines_concat(a.drop_first(), b, keep_comments);
        match classify_line_spec(a[0], keep_comments) {
            Some(v) => {
                assert(seq![v] + (classify_lines(a.drop_first(), keep_comments) + classify_lines(
                    b,
                    keep_comments,
                )) =~= (seq![v] + classify_lines(a.drop_first(), keep_comments)) + classify_lines(
                    b,
                    keep_comments,
                ));
            },
            None => {},
        }
    }
}

/// Key extraction distributes over concatenation of line sequences.
pub proof fn lemma_keys_of_lines_concat(a: Seq<Seq<char>>, b: Seq<Seq<char>>)
    ensures
        keys_of_lines(a + b) == keys_of_lines(a) + keys_of_lines(b),
    decreases a.len(),
{
    if a.len() == 0 {
        assert(a + b =~= b);
        assert(keys_of_lines(a) + keys_of_lines(b) =~= keys_of_lines(b));
    } else {
        assert((a + b)[0] == a[0]);
        assert((a + b).len() > 0);
        assert((a + b).drop_first() =~= a.drop_first() + b);
        lemma_keys_of_lines_concat(a.drop_first(), b);
        match line_key(a[0]) {
            Some(k) => {
                assert(seq![k] + (keys_of_lines(a.drop_first()) + keys_of_lines(b)) =~= (seq![k]
                    + keys_of_lines(a.drop_first())) + keys_of_lines(b));
            },
            None => {},
        }
    }
}

/// Classification of a single line, unfolded.
pub proof fn lemma_classify_lines_single(l: Seq<char>, keep_comments: bool)
    ensures
        classify_lines(seq![l], keep_comments) == match classify_line_spec(l, keep_comments) {
            Some(v) => seq![v],
            None => Seq::<LineView>::empty(),
        },
{
    let single = seq![l];
    assert(single.len() == 1);
    assert(single[0] == l);
    assert(single.drop_first() =~= Seq::<Seq<char>>::empty());
    assert(classify_lines(single.drop_first(), keep_comments) =~= Seq::<LineView>::empty());
    match classify_line_spec(l, keep_comments) {
        Some(v) => {
            assert(classify_lines(single, keep_comments) == seq![v] + Seq::<LineView>::empty());
            assert(seq![v] + Seq::<LineView>::empty() =~= seq![v]);
        },
        None => {},
    }
}

/// Key extraction from a single line, unfolded.
pub proof fn lemma_keys_of_lines_single(l: Seq<char>)
    ensures
        keys_of_lines(seq![l]) == match line_key(l) {
            Some(k) => seq![k],
            None => Seq::<Seq<char>>::empty(),
        },
{
    let single = seq![l];
    assert(single.len() == 1);
    assert(single[0] == l);
    assert(single.drop_first() =~= Seq::<Seq<char>>::empty());
    assert(keys_of_lines(single.drop_first()) =~= Seq::<Seq<char>>::empty());
    match line_key(l) {
        Some(k) => {
            assert(keys_of_lines(single) == seq![k] + Seq::<Seq<char>>::empty());
            assert(seq![k] + Seq::<Seq<char>>::empty() =~= seq![k]);
        },
        None => {},
    }
}

/// Every key a line yields is well formed, provided the line itself holds no
/// newline.
pub proof fn lemma_line_key_wf(line: Seq<char>)
    requires
        !line.contains('\n'),
        line_key(line) is Some,
    ensures
        wf_key(line_key(line)->Some_0),
{
    let t = trim_spec(line);
    let i = idx_of_first(t, '=');
    let u = t.take(i);
    let k = trim_spec(u);
    lemma_idx_of_first(t, '=');
    // no '=' before the first one, so none in u, and none in its trimming
    assert forall|j: int| 0 <= j < u.len() implies u[j] != '=' by {
        assert(u[j] == t[j]);
    }
    if u.contains('=') {
        let j = choose|j: int| 0 <= j < u.len() && u[j] == '=';
        assert(u[j] != '=');
    }
    lemma_trim_contains(u, '=');
    // no newline anywhere: u is part of t, t is part of line
    if k.contains('\n') {
        lemma_trim_contains(u, '\n');
        let j = choose|j: int| 0 <= j < u.len() && u[j] == '\n';
        assert(t[j] == '\n');
        assert(t.contains('\n'));
        lemma_trim_contains(line, '\n');
    }
    // trimmed twice is trimmed once
    lemma_trim_idem(u);
    // a non-empty key starts where the trimmed line starts, away from '#'
    if k.len() > 0 {
        lemma_trim_props(line);
        assert(!is_ws_char(t[0]));
        assert(i > 0) by {
            if i == 0 {
                assert(u =~= Seq::<char>::empty());
                lemma_trim_of_clean(k);
            }
        }
        assert(u[0] == t[0]);
        assert(drop_leading_ws(u) == u);
        lemma_drop_trailing_keeps_head(u);
        assert(k[0] == t[0]);
    }
}

/// Reclassifying a rendered `KEY=` line finds exactly the key again.
pub proof fn lemma_render_key_reclassify(k: Seq<char>)
    requires
        wf_key(k),
    ensures
        line_key(k + seq!['=']) == Some(k),
        classify_line_spec(k + seq!['='], true) == Some(
            LineView::KeyValue(k, k + seq!['=']),
        ),
        classify_line_spec(k + seq!['='], false) == Some(
            LineView::KeyValue(k, k + seq!['=']),
        ),
{
    let l = k + seq!['='];
    assert(l.len() == k.len() + 1);
    assert(l.last() == '=');
    if k.len() > 0 {
        assert(l[0] == k[0]);
        lemma_trim_props(k);
        assert(!is_ws_char(k[0]));
    } else {
        assert(l[0] == '=');
    }
    lemma_trim_of_clean(l);
    assert(trim_spec(l) == l);
    assert(l.contains('=')) by {
        assert(l[k.len() as int] == '=');
    }
    assert(l[0] != '#');
    assert forall|j: int| 0 <= j < k.len() implies l[j] != '=' by {
        assert(l[j] == k[j]);
        if k[j] == '=' {
            assert(k.contains('='));
        }
    }
    crate::text::lemma_idx_of_first_is(l, '=', k.len() as int);
    assert(l.take(k.len() as int) =~= k);
    assert(trim_spec(l.take(idx_of_first(l, '='))) == k);
}

/// Classify one line of input.
pub fn classify_line(line: &str, keep_comments: bool) -> (r: Option<ClassifiedLine>)
    ensures
        match r {
            Some(cl) => classify_line_spec(line@, keep_comments) == Some(cl@),
            None => classify_line_spec(line@, keep_comments) is None,
        },
{
    let t = trim(line);
    if t.unicode_len() == 0 {
        Some(ClassifiedLine::Blank)
    } else if t.get_char(0) == '#' {
        if keep_comments {
            Some(ClassifiedLine::Comment(line.to_owned()))
        } else {
            None
        }
    } else {
        match index_of_char(t, '=') {
            Some(i) => {
                proof {
                    crate::text::lemma_idx_of_first(t@, '=');
                }
                let key = trim(t.substring_char(0, i)).to_owned();
                let full = t.to_owned();
                proof {
                    assert(t@.subrange(0, i as int) =~= t@.take(i as int));
                }
                Some(ClassifiedLine::KeyValue(key, full))
            },
            None => None,
        }
    }
}

/// The key of one line, if the line has one.
pub fn key_of_line(line: &str) -> (r: Option<String>)
    ensures
        match r {
            Some(k) => line_key(line@) == Some(k@),
            None => line_key(line@) is None,
        },
{
    let t = trim(line);
    if t.unicode_len() == 0 {
        None
    } else if t.get_char(0) == '#' {
        None
    } else {
        match index_of_char(t, '=') {
            Some(i) => {
                proof {
                    crate::text::lemma_idx_of_first(t@, '=');
                }
                let key = trim(t.substring_char(0, i)).to_owned();
                proof {
                    assert(t@.subrange(0, i as int) =~= t@.take(i as int));
                }
                Some(key)
            },
            None => None,
        }
    }
}

/// Classify every line of `content`, applying the comment-retention policy:
/// blank lines are kept, comment lines only with `keep_comments`, `KEY=value`
/// lines are reduced to key and trimmed text, anything else is dropped.
pub fn collect_keys(content: &str, keep_comments: bool) -> (r: Vec<ClassifiedLine>)
    ensures
        r@.map_values(|cl: ClassifiedLine| cl@) == classify_spec(content@, keep_comments),
{
    let ghost cvf = |cl: ClassifiedLine| cl@;
    let lines = split_lines(content);
    let ghost lviews = views_of(lines@);
    let mut out: Vec<ClassifiedLine> = Vec::new();
    let mut i: usize = 0;
    proof {
        assert(lviews.take(0) =~= Seq::<Seq<char>>::empty());
        assert(out@.map_values(cvf) =~= classify_lines(lviews.take(0), keep_comments));
    }
    while i < lines.len()
        invariant
            0 <= i <= lines@.len(),
            lviews == views_of(lines@),
            lviews == split_lines_spec(content@),
            out@.map_values(cvf) == classify_lines(lviews.take(i as int), keep_comments),
            cvf == (|cl: ClassifiedLine| cl@),
        decreases lines@.len() - i,
    {
        let r = classify_line(lines[i].as_str(), keep_comments);
        proof {
            assert(lviews[i as int] == lines@[i as int]@);
            assert(lviews.take(i as int).push(lviews[i as int]) =~= lviews.take(i as int + 1));
            assert(lviews.take(i as int + 1) =~= lviews.take(i as int) + seq![lviews[i as int]]);
            lemma_classify_lines_concat(lviews.take(i as int), seq![lviews[i as int]], keep_comments);
        }
        proof {
            lemma_classify_lines_single(lviews[i as int], keep_comments);
        }
        match r {
            Some(cl) => {
                proof {
                    assert(classify_lines(seq![lviews[i as int]], keep_comments) == seq![cl@]);
                    assert(out@.push(cl).map_values(cvf) =~= out@.map_values(cvf) + seq![cl@]);
                }
                out.push(cl);
            },
            None => {
                proof {
                    assert(out@.map_values(cvf) + Seq::<LineView>::empty() =~= out@.map_values(
                        cvf,
                    ));
                }
            },
        }
        i += 1;
    }
    proof {
        assert(lviews.take(lines@.len() as int) =~= lviews);
    }
    out
}

/// The keys of `content`, one per `KEY=value` line, in input order.
pub fn key_list(content: &str) -> (r: Vec<String>)
    ensures
        views_of(r@) == key_seq_of(content@),
{
    let lines = split_lines(content);
    let ghost lviews = views_of(lines@);
    let mut out: Vec<String> = Vec::new();
    let mut i: usize = 0;
    proof {
        assert(lviews.take(0) =~= Seq::<Seq<char>>::empty());
        assert(views_of(out@) =~= keys_of_lines(lviews.take(0)));
    }
    while i < lines.len()
        invariant
            0 <= i <= lines@.len(),
            lviews == views_of(lines@),
            lviews == split_lines_spec(content@),
            views_of(out@) == keys_of_lines(lviews.take(i as int)),
        decreases lines@.len() - i,
    {
        let r = key_of_line(lines[i].as_str());
        proof {
            assert(lviews[i as int] == lines@[i as int]@);
            assert(lviews.take(i as int + 1) =~= lviews.take(i as int) + seq![lviews[i as int]]);
            lemma_keys_of_lines_concat(lviews.take(i as int), seq![lviews[i as int]]);
        }
        proof {
            lemma_keys_of_lines_single(lviews[i as int]);
        }
        match r {
            Some(k) => {
                proof {
                    assert(keys_of_lines(seq![lviews[i as int]]) == seq![k@]);
                    crate::text::lemma_views_push(out@, k);
                    assert(views_of(out@) + seq![k@] =~= views_of(out@).push(k@));
                }
                out.push(k);
            },
            None => {
                proof {
                    assert(views_of(out@) + Seq::<Seq<char>>::empty() =~= views_of(out@));
                }
            },
        }
        i += 1;
    }
    proof {
        assert(lviews.take(lines@.len() as int) =~= lviews);
    }
    out
}

} // verus!
