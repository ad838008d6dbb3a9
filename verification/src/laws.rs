//! The properties the library stands on, proved once and for all: rendering
//! preserves the key sequence, `KEY=` lines round-trip, append mode renders
//! exactly the missing keys, the comment toggle is honored, and malformed
//! lines vanish without a trace.

use vstd::prelude::*;
use crate::classify::{
    classify_line_spec, classify_lines, is_comment_line, is_malformed_line, key_seq_of,
    key_set_of, keys_of_lines, lemma_keys_of_lines_concat, lemma_keys_of_lines_single,
    lemma_line_key_wf, lemma_render_key_reclassify, line_key, wf_key, LineView,
};
use crate::reconcile::{
    missing_keys_spec, overwrite_spec, render_line_spec, render_template_spec, rendered_of,
};
use crate::text::{
    join_lines, lemma_contains_head, lemma_split_join, lemma_split_no_nl, lemma_trim_contains,
    lemma_trim_props, split_lines_spec, trim_spec,
};

verus! {

/// The shape every classified line has: comments are comment lines without
/// newlines, keys are well formed.
pub open spec fn wf_view(v: LineView) -> bool {
    match v {
        LineView::Blank => true,
        LineView::Comment(c) => is_comment_line(c) && !c.contains('\n'),
        LineView::KeyOnly(k) => wf_key(k),
        LineView::KeyValue(k, _) => wf_key(k),
    }
}

/// The keys a sequence of classified lines carries, in order.
pub open spec fn keys_of_views(ls: Seq<LineView>) -> Seq<Seq<char>>
    decreases ls.len(),
{
    if ls.len() == 0 {
        Seq::empty()
    } else {
        match ls[0] {
            LineView::KeyOnly(k) => seq![k] + keys_of_views(ls.drop_first()),
            LineView::KeyValue(k, _) => seq![k] + keys_of_views(ls.drop_first()),
            _ => keys_of_views(ls.drop_first()),
        }
    }
}

/// Whatever the classifier emits for a newline-free line is well formed, and
/// with comments off it never emits a comment.
pub proof fn lemma_classify_line_wf(line: Seq<char>, keep_comments: bool)
    requires
        !line.contains('\n'),
    ensures
        match classify_line_spec(line, keep_comments) {
            Some(v) => wf_view(v) && (!keep_comments ==> !(v is Comment)),
            None => true,
        },
{
    let t = trim_spec(line);
    if t.len() == 0 {
    } else if t[0] == '#' {
    } else if t.contains('=') {
        assert(line_key(line) is Some);
        lemma_line_key_wf(line);
    }
}

/// Every line the classifier emits for newline-free input is well formed.
pub proof fn lemma_classify_all_wf(ls: Seq<Seq<char>>, keep_comments: bool)
    requires
        forall|i: int| 0 <= i < ls.len() ==> !(#[trigger] ls[i]).contains('\n'),
    ensures
        forall|j: int|
            0 <= j < classify_lines(ls, keep_comments).len() ==> wf_view(
                #[trigger] classify_lines(ls, keep_comments)[j],
            ),
        !keep_comments ==> forall|j: int|
            0 <= j < classify_lines(ls, keep_comments).len() ==> !(
            #[trigger] classify_lines(ls, keep_comments)[j] is Comment),
    decreases ls.len(),
{
    if ls.len() > 0 {
        assert(!ls[0].contains('\n'));
        assert forall|i: int|
            0 <= i < ls.drop_first().len() implies !(#[trigger] ls.drop_first()[i]).contains(
            '\n',
        ) by {
            assert(ls.drop_first()[i] == ls[i + 1]);
        }
        lemma_classify_all_wf(ls.drop_first(), keep_comments);
        lemma_classify_line_wf(ls[0], keep_comments);
        let cls = classify_lines(ls, keep_comments);
        let rec = classify_lines(ls.drop_first(), keep_comments);
        match classify_line_spec(ls[0], keep_comments) {
            Some(v) => {
                assert(cls == seq![v] + rec);
                assert forall|j: int| 0 <= j < cls.len() implies wf_view(#[trigger] cls[j]) by {
                    if j == 0 {
                        assert(cls[j] == v);
                    } else {
                        assert(cls[j] == rec[j - 1]);
                    }
                }
                if !keep_comments {
                    assert forall|j: int| 0 <= j < cls.len() implies !(#[trigger] cls[j] is Comment)
                        by {
                        if j == 0 {
                            assert(cls[j] == v);
                        } else {
                            assert(cls[j] == rec[j - 1]);
                        }
                    }
                }
            },
            None => {},
        }
    }
}

/// Classification keeps exactly the keys of the lines.
pub proof fn lemma_keys_classify(ls: Seq<Seq<char>>, keep_comments: bool)
    ensures
        keys_of_views(classify_lines(ls, keep_comments)) == keys_of_lines(ls),
    decreases ls.len(),
{
    if ls.len() > 0 {
        lemma_keys_classify(ls.drop_first(), keep_comments);
        let cls = classify_lines(ls, keep_comments);
        let rec = classify_lines(ls.drop_first(), keep_comments);
        match classify_line_spec(ls[0], keep_comments) {
            Some(v) => {
                assert(cls == seq![v] + rec);
                assert(cls.len() > 0);
                assert(cls[0] == v);
                assert(cls.drop_first() =~= rec);
                match v {
                    LineView::Blank => {
                        assert(line_key(ls[0]) is None);
                    },
                    LineView::Comment(_) => {
                        assert(line_key(ls[0]) is None);
                    },
                    LineView::KeyOnly(_) => {
                        assert(false);
                    },
                    LineView::KeyValue(k, _) => {
                        assert(line_key(ls[0]) == Some(k));
                    },
                }
            },
            None => {
                assert(line_key(ls[0]) is None);
            },
        }
    }
}

/// Rendering well-formed classified lines and reading the keys back yields
/// the keys the classified lines carry.
pub proof fn lemma_keys_render(cls: Seq<LineView>)
    requires
        forall|j: int| 0 <= j < cls.len() ==> wf_view(#[trigger] cls[j]),
    ensures
        keys_of_lines(rendered_of(cls)) == keys_of_views(cls),
    decreases cls.len(),
{
    let rendered = rendered_of(cls);
    assert(rendered.len() == cls.len());
    if cls.len() > 0 {
        assert(wf_view(cls[0]));
        assert forall|j: int| 0 <= j < cls.drop_first().len() implies wf_view(
            #[trigger] cls.drop_first()[j],
        ) by {
            assert(cls.drop_first()[j] == cls[j + 1]);
        }
        lemma_keys_render(cls.drop_first());
        assert(rendered[0] == render_line_spec(cls[0]));
        assert(rendered.drop_first() =~= rendered_of(cls.drop_first()));
        match cls[0] {
            LineView::Blank => {
                assert(rendered[0] =~= Seq::<char>::empty());
                assert(trim_spec(Seq::<char>::empty()).len() == 0);
                assert(line_key(rendered[0]) is None);
            },
            LineView::Comment(c) => {
                assert(rendered[0] == c);
                assert(line_key(c) is None);
            },
            LineView::KeyOnly(k) => {
                lemma_render_key_reclassify(k);
                assert(line_key(rendered[0]) == Some(k));
            },
            LineView::KeyValue(k, _) => {
                lemma_render_key_reclassify(k);
                assert(line_key(rendered[0]) == Some(k));
            },
        }
    }
}

/// No rendered line of well-formed classified lines holds a newline.
pub proof fn lemma_rendered_no_nl(cls: Seq<LineView>)
    requires
        forall|j: int| 0 <= j < cls.len() ==> wf_view(#[trigger] cls[j]),
    ensures
        forall|j: int|
            0 <= j < rendered_of(cls).len() ==> !(#[trigger] rendered_of(cls)[j]).contains('\n'),
{
    let rendered = rendered_of(cls);
    assert forall|j: int| 0 <= j < rendered.len() implies !(#[trigger] rendered[j]).contains(
        '\n',
    ) by {
        assert(rendered[j] == render_line_spec(cls[j]));
        assert(wf_view(cls[j]));
        match cls[j] {
            LineView::Blank => {
                if rendered[j].contains('\n') {
                    let q = choose|q: int| 0 <= q < rendered[j].len() && rendered[j][q] == '\n';
                }
            },
            LineView::Comment(_) => {},
            LineView::KeyOnly(k) => {
                if rendered[j].contains('\n') {
                    let q = choose|q: int| 0 <= q < rendered[j].len() && rendered[j][q] == '\n';
                    if q < k.len() {
                        assert(k[q] == '\n');
                        assert(k.contains('\n'));
                    }
                }
            },
            LineView::KeyValue(k, _) => {
                if rendered[j].contains('\n') {
                    let q = choose|q: int| 0 <= q < rendered[j].len() && rendered[j][q] == '\n';
                    if q < k.len() {
                        assert(k[q] == '\n');
                        assert(k.contains('\n'));
                    }
                }
            },
        }
    }
}

/// Deriving a template keeps the key sequence of the source intact: values
/// are stripped and lines may be dropped, but the keys, their order and
/// their multiplicity survive.  In particular, re-deriving a template from
/// its own output changes nothing about the keys.
pub proof fn lemma_template_preserves_keys(content: Seq<char>, keep_comments: bool)
    ensures
        key_seq_of(overwrite_spec(content, keep_comments)) == key_seq_of(content),
        key_set_of(overwrite_spec(content, keep_comments)) == key_set_of(content),
{
    let lines = split_lines_spec(content);
    let cls = classify_lines(lines, keep_comments);
    let rendered = rendered_of(cls);
    lemma_split_no_nl(content);
    lemma_classify_all_wf(lines, keep_comments);
    lemma_rendered_no_nl(cls);
    lemma_split_join(rendered);
    let out_lines = split_lines_spec(join_lines(rendered));
    if rendered.len() > 0 && rendered.last().len() == 0 {
        assert(out_lines == rendered.drop_last());
        assert(rendered.drop_last() + seq![rendered.last()] =~= rendered);
        lemma_keys_of_lines_concat(rendered.drop_last(), seq![rendered.last()]);
        lemma_keys_of_lines_single(rendered.last());
        assert(trim_spec(rendered.last()).len() == 0);
        assert(line_key(rendered.last()) is None);
        assert(keys_of_lines(rendered.drop_last()) + Seq::<Seq<char>>::empty() =~= keys_of_lines(
            rendered.drop_last(),
        ));
        assert(keys_of_lines(out_lines) == keys_of_lines(rendered));
    }
    lemma_keys_render(cls);
    lemma_keys_classify(lines, keep_comments);
    assert(key_seq_of(overwrite_spec(content, keep_comments)) == key_seq_of(content));
}

/// `keys_of_views` inverts wrapping keys as `KeyOnly` lines.
proof fn lemma_keys_of_keyonly(ks: Seq<Seq<char>>)
    ensures
        keys_of_views(ks.map_values(|k: Seq<char>| LineView::KeyOnly(k))) == ks,
    decreases ks.len(),
{
    let cls = ks.map_values(|k: Seq<char>| LineView::KeyOnly(k));
    if ks.len() > 0 {
        lemma_keys_of_keyonly(ks.drop_first());
        assert(cls[0] == LineView::KeyOnly(ks[0]));
        assert(cls.drop_first() =~= ks.drop_first().map_values(
            |k: Seq<char>| LineView::KeyOnly(k),
        ));
        assert(seq![ks[0]] + ks.drop_first() =~= ks);
    } else {
        assert(cls.len() == 0);
    }
}

/// Round trip: rendering `KEY=` lines for well-formed keys and classifying
/// the result recovers exactly those keys, in order.
pub proof fn lemma_key_round_trip(ks: Seq<Seq<char>>)
    requires
        forall|i: int| 0 <= i < ks.len() ==> wf_key(#[trigger] ks[i]),
    ensures
        key_seq_of(render_template_spec(ks.map_values(|k: Seq<char>| LineView::KeyOnly(k))))
            == ks,
{
    let cls = ks.map_values(|k: Seq<char>| LineView::KeyOnly(k));
    let rendered = rendered_of(cls);
    assert forall|j: int| 0 <= j < cls.len() implies wf_view(#[trigger] cls[j]) by {
        assert(cls[j] == LineView::KeyOnly(ks[j]));
    }
    lemma_rendered_no_nl(cls);
    lemma_split_join(rendered);
    if rendered.len() > 0 {
        let last = rendered[rendered.len() - 1];
        assert(cls[cls.len() - 1] == LineView::KeyOnly(ks[ks.len() - 1]));
        assert(last == render_line_spec(cls[cls.len() - 1]));
        assert(last.len() == ks[ks.len() - 1].len() + 1);
    }
    assert(split_lines_spec(join_lines(rendered)) == rendered);
    lemma_keys_render(cls);
    lemma_keys_of_keyonly(ks);
}

/// Membership in the missing-key sequence: a key is listed iff the key
/// sequence holds it and the exclusion set does not.
pub proof fn lemma_missing_rec_membership(ks: Seq<Seq<char>>, excl: Set<Seq<char>>, k: Seq<char>)
    ensures
        crate::reconcile::missing_rec(ks, excl).contains(k) <==> (ks.contains(k)
            && !excl.contains(k)),
    decreases ks.len(),
{
    if ks.len() == 0 {
        if ks.contains(k) {
            let i = choose|i: int| 0 <= i < ks.len() && ks[i] == k;
        }
        if crate::reconcile::missing_rec(ks, excl).contains(k) {
            let i = choose|i: int|
                0 <= i < crate::reconcile::missing_rec(ks, excl).len()
                    && crate::reconcile::missing_rec(ks, excl)[i] == k;
        }
    } else {
        let h = ks[0];
        lemma_contains_head(ks, k);
        if excl.contains(h) {
            lemma_missing_rec_membership(ks.drop_first(), excl, k);
        } else {
            lemma_missing_rec_membership(ks.drop_first(), excl.insert(h), k);
            let m = crate::reconcile::missing_rec(ks.drop_first(), excl.insert(h));
            assert(crate::reconcile::missing_rec(ks, excl) == seq![h] + m);
            lemma_contains_head(seq![h] + m, k);
            assert((seq![h] + m)[0] == h);
            assert((seq![h] + m).drop_first() =~= m);
        }
    }
}

/// Set difference: append mode lists a key iff the source has it and the
/// existing template lacks it.
pub proof fn lemma_missing_membership(source: Seq<char>, existing: Seq<char>, k: Seq<char>)
    ensures
        missing_keys_spec(source, existing).contains(k) <==> (key_set_of(source).contains(k)
            && !key_set_of(existing).contains(k)),
{
    lemma_missing_rec_membership(key_seq_of(source), key_set_of(existing), k);
}

/// Does a line open a comment?
pub open spec fn starts_with_hash(l: Seq<char>) -> bool {
    l.len() > 0 && l[0] == '#'
}

/// With comments off, no line of the rendered template starts with `#`.
pub proof fn lemma_no_comment_output(content: Seq<char>)
    ensures
        forall|i: int|
            0 <= i < split_lines_spec(overwrite_spec(content, false)).len() ==> !starts_with_hash(
                #[trigger] split_lines_spec(overwrite_spec(content, false))[i],
            ),
{
    let lines = split_lines_spec(content);
    let cls = classify_lines(lines, false);
    let rendered = rendered_of(cls);
    lemma_split_no_nl(content);
    lemma_classify_all_wf(lines, false);
    lemma_rendered_no_nl(cls);
    lemma_split_join(rendered);
    let out_lines = split_lines_spec(overwrite_spec(content, false));
    assert forall|j: int| 0 <= j < rendered.len() implies !starts_with_hash(
        #[trigger] rendered[j],
    ) by {
        assert(rendered[j] == render_line_spec(cls[j]));
        assert(wf_view(cls[j]));
        assert(!(cls[j] is Comment));
        match cls[j] {
            LineView::Blank => {},
            LineView::Comment(_) => {},
            LineView::KeyOnly(k) => {
                if k.len() > 0 {
                    assert(rendered[j][0] == k[0]);
                } else {
                    assert(rendered[j][0] == '=');
                }
            },
            LineView::KeyValue(k, _) => {
                if k.len() > 0 {
                    assert(rendered[j][0] == k[0]);
                } else {
                    assert(rendered[j][0] == '=');
                }
            },
        }
    }
    assert forall|i: int| 0 <= i < out_lines.len() implies !starts_with_hash(
        #[trigger] out_lines[i],
    ) by {
        if rendered.len() > 0 && rendered.last().len() == 0 {
            assert(out_lines[i] == rendered.drop_last()[i]);
            assert(rendered.drop_last()[i] == rendered[i]);
        } else {
            assert(out_lines[i] == rendered[i]);
        }
    }
}

/// A comment line of `ls` survives rendering verbatim when comments are
/// kept.
proof fn lemma_comment_rendered(ls: Seq<Seq<char>>, l: Seq<char>)
    requires
        ls.contains(l),
        is_comment_line(l),
    ensures
        rendered_of(classify_lines(ls, true)).contains(l),
    decreases ls.len(),
{
    let cls = classify_lines(ls, true);
    let rendered = rendered_of(cls);
    assert(ls.len() > 0);
    if ls[0] == l {
        assert(classify_line_spec(l, true) == Some(LineView::Comment(l)));
        assert(cls == seq![LineView::Comment(l)] + classify_lines(ls.drop_first(), true));
        assert(cls[0] == LineView::Comment(l));
        assert(rendered[0] == render_line_spec(cls[0]));
        assert(rendered[0] == l);
        assert(rendered.contains(l));
    } else {
        lemma_contains_head(ls, l);
        lemma_comment_rendered(ls.drop_first(), l);
        let rec_rendered = rendered_of(classify_lines(ls.drop_first(), true));
        let i = choose|i: int| 0 <= i < rec_rendered.len() && rec_rendered[i] == l;
        match classify_line_spec(ls[0], true) {
            Some(v) => {
                assert(cls == seq![v] + classify_lines(ls.drop_first(), true));
                assert(cls.drop_first() =~= classify_lines(ls.drop_first(), true));
                assert(rendered.drop_first() =~= rec_rendered);
                assert(rendered[i + 1] == l);
                assert(rendered.contains(l));
            },
            None => {
                assert(cls == classify_lines(ls.drop_first(), true));
                assert(rendered.contains(l));
            },
        }
    }
}

/// With comments kept, every comment line of the source appears verbatim in
/// the rendered template.
pub proof fn lemma_comments_kept(content: Seq<char>, i: int)
    requires
        0 <= i < split_lines_spec(content).len(),
        is_comment_line(split_lines_spec(content)[i]),
    ensures
        split_lines_spec(overwrite_spec(content, true)).contains(split_lines_spec(content)[i]),
{
    let lines = split_lines_spec(content);
    let l = lines[i];
    assert(lines.contains(l));
    lemma_split_no_nl(content);
    lemma_classify_all_wf(lines, true);
    let cls = classify_lines(lines, true);
    let rendered = rendered_of(cls);
    lemma_rendered_no_nl(cls);
    lemma_comment_rendered(lines, l);
    lemma_split_join(rendered);
    lemma_trim_props(l);
    assert(l.len() > 0);
    let out_lines = split_lines_spec(overwrite_spec(content, true));
    if rendered.len() > 0 && rendered.last().len() == 0 {
        let idx = choose|j: int| 0 <= j < rendered.len() && rendered[j] == l;
        assert(rendered[rendered.len() - 1].len() == 0);
        assert(idx != rendered.len() - 1);
        assert(rendered.drop_last()[idx] == l);
        assert(out_lines.contains(l));
    }
}

/// A malformed line never appears among the lines of a rendered template.
pub proof fn lemma_malformed_not_rendered(content: Seq<char>, keep_comments: bool, m: Seq<char>)
    requires
        is_malformed_line(m),
    ensures
        !split_lines_spec(overwrite_spec(content, keep_comments)).contains(m),
{
    let lines = split_lines_spec(content);
    let cls = classify_lines(lines, keep_comments);
    let rendered = rendered_of(cls);
    lemma_split_no_nl(content);
    lemma_classify_all_wf(lines, keep_comments);
    lemma_rendered_no_nl(cls);
    lemma_split_join(rendered);
    let out_lines = split_lines_spec(overwrite_spec(content, keep_comments));
    assert(trim_spec(m).len() > 0);
    assert forall|j: int| 0 <= j < rendered.len() implies rendered[j] != m by {
        assert(rendered[j] == render_line_spec(cls[j]));
        assert(wf_view(cls[j]));
        match cls[j] {
            LineView::Blank => {
                if rendered[j] == m {
                    assert(m.len() == 0);
                    assert(trim_spec(m).len() == 0);
                }
            },
            LineView::Comment(c) => {
                if rendered[j] == m {
                    assert(is_comment_line(m));
                }
            },
            LineView::KeyOnly(k) => {
                if rendered[j] == m {
                    assert(m[k.len() as int] == '=');
                    assert(m.contains('='));
                    lemma_trim_contains(m, '=');
                    assert(trim_spec(m).contains('='));
                }
            },
            LineView::KeyValue(k, _) => {
                if rendered[j] == m {
                    assert(m[k.len() as int] == '=');
                    assert(m.contains('='));
                    lemma_trim_contains(m, '=');
                    assert(trim_spec(m).contains('='));
                }
            },
        }
    }
    if out_lines.contains(m) {
        let j = choose|j: int| 0 <= j < out_lines.len() && out_lines[j] == m;
        if rendered.len() > 0 && rendered.last().len() == 0 {
            assert(out_lines[j] == rendered.drop_last()[j]);
            assert(rendered.drop_last()[j] == rendered[j]);
        } else {
            assert(out_lines[j] == rendered[j]);
        }
    }
}

/// A malformed line anywhere in the input leaves the key sequence untouched.
pub proof fn lemma_malformed_keys_unaffected(
    before: Seq<Seq<char>>,
    m: Seq<char>,
    after: Seq<Seq<char>>,
)
    requires
        is_malformed_line(m),
    ensures
        keys_of_lines(before + seq![m] + after) == keys_of_lines(before + after),
{
    assert(before + seq![m] + after =~= before + (seq![m] + after));
    lemma_keys_of_lines_concat(before, seq![m] + after);
    lemma_keys_of_lines_concat(seq![m], after);
    lemma_keys_of_lines_single(m);
    assert(line_key(m) is None);
    lemma_keys_of_lines_concat(before, after);
    assert(keys_of_lines(seq![m]) =~= Seq::<Seq<char>>::empty());
    assert(Seq::<Seq<char>>::empty() + keys_of_lines(after) =~= keys_of_lines(after));
    assert(keys_of_lines(before + seq![m] + after) == keys_of_lines(before) + keys_of_lines(
        after,
    ));
}

/// With no keys missing, append mode renders the empty text.
pub proof fn lemma_no_missing_renders_empty(source: Seq<char>, existing: Seq<char>)
    requires
        missing_keys_spec(source, existing).len() == 0,
    ensures
        crate::reconcile::missing_spec(source, existing).len() == 0,
{
    assert(crate::reconcile::eq_lines_of(missing_keys_spec(source, existing)).len() == 0);
}

} // verus!
