//! The reconciler: renders a fresh template from classified lines (overwrite
//! mode) or renders the keys missing from an existing template (append mode).

use vstd::prelude::*;
use vstd::string::*;
use crate::classify::{
    classify_spec, collect_keys, key_list, key_seq_of, key_set_of, ClassifiedLine, LineView,
};
use crate::text::{join_lines, join_with_newlines, views_of};

verus! {

/// The configuration of one run, resolved once from the command line and
/// never changed afterwards.
pub struct Options {
    /// Path of the env file that supplies the keys.
    pub input_file: String,
    /// Path of the template file that is written or extended.
    pub output_file: String,
    /// Keep `#` comment lines in the rendered template.
    pub keep_comments: bool,
    /// Replace the template wholesale instead of appending missing keys.
    pub overwrite: bool,
}

/// How one classified line renders in the template: blanks stay blank,
/// comments stay verbatim, keys lose their value.
pub open spec fn render_line_spec(l: LineView) -> Seq<char> {
    match l {
        LineView::Blank => Seq::empty(),
        LineView::Comment(c) => c,
        LineView::KeyOnly(k) => k + seq!['='],
        LineView::KeyValue(k, _) => k + seq!['='],
    }
}

/// Every classified line rendered, still one sequence per line.
pub open spec fn rendered_of(ls: Seq<LineView>) -> Seq<Seq<char>> {
    ls.map_values(|l: LineView| render_line_spec(l))
}

/// The rendered template: every classified line rendered, joined with
/// newlines.
pub open spec fn render_template_spec(ls: Seq<LineView>) -> Seq<char> {
    join_lines(rendered_of(ls))
}

/// The full overwrite-mode output for `content`.
pub open spec fn overwrite_spec(content: Seq<char>, keep_comments: bool) -> Seq<char> {
    render_template_spec(classify_spec(content, keep_comments))
}

/// The keys of `ks` that are outside `excl`, first occurrences only, in
/// order.
pub open spec fn missing_rec(ks: Seq<Seq<char>>, excl: Set<Seq<char>>) -> Seq<Seq<char>>
    decreases ks.len(),
{
    if ks.len() == 0 {
        Seq::empty()
    } else if excl.contains(ks[0]) {
        missing_rec(ks.drop_first(), excl)
    } else {
        seq![ks[0]] + missing_rec(ks.drop_first(), excl.insert(ks[0]))
    }
}

/// The keys rendered in append mode: each key of `source` that `existing`
/// lacks, once, in order of first appearance in `source`.
pub open spec fn missing_keys_spec(source: Seq<char>, existing: Seq<char>) -> Seq<Seq<char>> {
    missing_rec(key_seq_of(source), key_set_of(existing))
}

/// Each key turned into a `KEY=` line.
pub open spec fn eq_lines_of(ks: Seq<Seq<char>>) -> Seq<Seq<char>> {
    ks.map_values(|k: Seq<char>| k + seq!['='])
}

/// Keys rendered as `KEY=` lines.
pub open spec fn render_keys_spec(ks: Seq<Seq<char>>) -> Seq<char> {
    join_lines(eq_lines_of(ks))
}

/// The full append-mode output.
pub open spec fn missing_spec(source: Seq<char>, existing: Seq<char>) -> Seq<char> {
    render_keys_spec(missing_keys_spec(source, existing))
}

/// A cloned key with `'='` appended.
fn append_eq(k: &String) -> (r: String)
    ensures
        r@ == k@ + seq!['='],
{
    let mut r = k.clone();
    r.append("=");
    proof {
        reveal_strlit("=");
        assert("="@ =~= seq!['=']);
    }
    r
}

/// Render one classified line for the template.
pub fn render_line(l: &ClassifiedLine) -> (r: String)
    ensures
        r@ == render_line_spec(l@),
{
    match l {
        ClassifiedLine::Blank => String::new(),
        ClassifiedLine::Comment(c) => c.clone(),
        ClassifiedLine::KeyOnly(k) => append_eq(k),
        ClassifiedLine::KeyValue(k, _) => append_eq(k),
    }
}

/// Render the classified `lines` into the full template text.
pub fn render_template(lines: &Vec<ClassifiedLine>) -> (r: String)
    ensures
        r@ == render_template_spec(lines@.map_values(|cl: ClassifiedLine| cl@)),
{
    let ghost cviews = lines@.map_values(|cl: ClassifiedLine| cl@);
    let mut rendered: Vec<String> = Vec::new();
    let mut i: usize = 0;
    proof {
        assert(views_of(rendered@) =~= rendered_of(cviews).take(0));
    }
    while i < lines.len()
        invariant
            0 <= i <= lines@.len(),
            cviews == lines@.map_values(|cl: ClassifiedLine| cl@),
            views_of(rendered@) == rendered_of(cviews).take(i as int),
        decreases lines@.len() - i,
    {
        let line = render_line(&lines[i]);
        proof {
            assert(cviews[i as int] == lines@[i as int]@);
            assert(rendered_of(cviews)[i as int] == render_line_spec(cviews[i as int]));
            crate::text::lemma_views_push(rendered@, line);
            assert(rendered_of(cviews).take(i as int).push(rendered_of(cviews)[i as int])
                =~= rendered_of(cviews).take(i as int + 1));
        }
        rendered.push(line);
        i += 1;
    }
    proof {
        assert(rendered_of(cviews).take(lines@.len() as int) =~= rendered_of(cviews));
    }
    join_with_newlines(&rendered)
}

/// Overwrite mode: derive the whole template text from `contents`, keeping
/// blanks, keeping comments only on request, stripping every value.
pub fn overwrite_env_file(contents: &str, keep_comments: bool) -> (r: String)
    ensures
        r@ == overwrite_spec(contents@, keep_comments),
{
    let lines = collect_keys(contents, keep_comments);
    render_template(&lines)
}

/// Does `v` hold a string whose characters equal `s`?
fn vec_contains(v: &Vec<String>, s: &String) -> (r: bool)
    ensures
        r == views_of(v@).contains(s@),
{
    let mut i: usize = 0;
    while i < v.len()
        invariant
            0 <= i <= v@.len(),
            forall|j: int| 0 <= j < i ==> views_of(v@)[j] != s@,
        decreases v@.len() - i,
    {
        if v[i].eq(s) {
            proof {
                assert(views_of(v@)[i as int] == s@);
            }
            return true;
        }
        proof {
            assert(views_of(v@)[i as int] == v@[i as int]@);
        }
        i += 1;
    }
    proof {
        if views_of(v@).contains(s@) {
            let j = choose|j: int| 0 <= j < views_of(v@).len() && views_of(v@)[j] == s@;
            assert(views_of(v@)[j] != s@);
        }
    }
    false
}

/// Append mode: render a `KEY=` line for every key of `contents` that
/// `example_contents` lacks, in order of first appearance.  The comment flag
/// plays no part here — comments never carry keys — and is accepted only so
/// both modes take the same inputs.
#[allow(unused_variables)]
pub fn process_env_file(contents: &str, example_contents: &str, keep_comments: bool) -> (r:
    String)
    ensures
        r@ == missing_spec(contents@, example_contents@),
{
    let src_keys = key_list(contents);
    let ex_keys = key_list(example_contents);
    let ghost ks = key_seq_of(contents@);
    let ghost base = key_set_of(example_contents@);
    let mut missing: Vec<String> = Vec::new();
    let mut i: usize = 0;
    proof {
        assert(ks.skip(0) =~= ks);
        assert(views_of(missing@) =~= Seq::<Seq<char>>::empty());
        assert(base.union(views_of(missing@).to_set()) =~= base);
        assert(Seq::<Seq<char>>::empty() + missing_rec(ks, base) =~= missing_rec(ks, base));
    }
    while i < src_keys.len()
        invariant
            0 <= i <= src_keys@.len(),
            views_of(src_keys@) == ks,
            views_of(ex_keys@) == key_seq_of(example_contents@),
            base == key_set_of(example_contents@),
            missing_rec(ks, base) == views_of(missing@) + missing_rec(
                ks.skip(i as int),
                base.union(views_of(missing@).to_set()),
            ),
        decreases src_keys@.len() - i,
    {
        let k = &src_keys[i];
        let in_existing = vec_contains(&ex_keys, k);
        let in_missing = vec_contains(&missing, k);
        proof {
            let tail = ks.skip(i as int);
            let excl = base.union(views_of(missing@).to_set());
            assert(tail.len() > 0);
            assert(tail[0] == ks[i as int]);
            assert(ks[i as int] == views_of(src_keys@)[i as int]);
            assert(views_of(src_keys@)[i as int] == src_keys@[i as int]@);
            assert(tail.drop_first() =~= ks.skip(i as int + 1));
            // exec membership agrees with the exclusion set
            assert(base.contains(k@) == views_of(ex_keys@).contains(k@));
            assert(views_of(missing@).to_set().contains(k@) == views_of(missing@).contains(k@));
            assert(excl.contains(k@) == (in_existing || in_missing));
            if !in_existing && !in_missing {
                crate::text::lemma_views_push(missing@, *k);
                assert(views_of(missing@.push(*k)) =~= views_of(missing@).push(k@));
                broadcast use vstd::seq_lib::lemma_seq_contains_after_push;

                assert(base.union(views_of(missing@).push(k@).to_set()) =~= excl.insert(k@));
                assert(views_of(missing@) + (seq![k@] + missing_rec(
                    ks.skip(i as int + 1),
                    excl.insert(k@),
                )) =~= views_of(missing@).push(k@) + missing_rec(
                    ks.skip(i as int + 1),
                    excl.insert(k@),
                ));
            }
        }
        if !in_existing && !in_missing {
            let kc = k.clone();
            missing.push(kc);
        }
        i += 1;
    }
    proof {
        assert(ks.skip(src_keys@.len() as int) =~= Seq::<Seq<char>>::empty());
        assert(missing_rec(Seq::<Seq<char>>::empty(), base.union(views_of(missing@).to_set()))
            =~= Seq::<Seq<char>>::empty());
        assert(views_of(missing@) + Seq::<Seq<char>>::empty() =~= views_of(missing@));
    }
    let mut rendered: Vec<String> = Vec::new();
    let ghost mviews = views_of(missing@);
    let mut i2: usize = 0;
    proof {
        assert(views_of(rendered@) =~= eq_lines_of(mviews).take(0));
    }
    while i2 < missing.len()
        invariant
            0 <= i2 <= missing@.len(),
            mviews == views_of(missing@),
            views_of(rendered@) == eq_lines_of(mviews).take(i2 as int),
        decreases missing@.len() - i2,
    {
        let line = append_eq(&missing[i2]);
        proof {
            assert(mviews[i2 as int] == missing@[i2 as int]@);
            assert(eq_lines_of(mviews)[i2 as int] == mviews[i2 as int] + seq!['=']);
            crate::text::lemma_views_push(rendered@, line);
            assert(eq_lines_of(mviews).take(i2 as int).push(eq_lines_of(mviews)[i2 as int])
                =~= eq_lines_of(mviews).take(i2 as int + 1));
        }
        rendered.push(line);
        i2 += 1;
    }
    proof {
        assert(eq_lines_of(mviews).take(missing@.len() as int) =~= eq_lines_of(mviews));
    }
    join_with_newlines(&rendered)
}

/// The whole text transformation of one run: overwrite mode renders the full
/// template from the source, append mode renders only the keys the existing
/// template lacks.
pub fn transform(options: &Options, contents: &str, example_contents: &str) -> (r: String)
    ensures
        options.overwrite ==> r@ == overwrite_spec(contents@, options.keep_comments),
        !options.overwrite ==> r@ == missing_spec(contents@, example_contents@),
{
    if options.overwrite {
        overwrite_env_file(contents, options.keep_comments)
    } else {
        process_env_file(contents, example_contents, options.keep_comments)
    }
}

} // verus!
