//! Correlating a failed request with the last successful one like it, and
//! classifying how their schemas differ.
use vstd::prelude::*;
use super::report::{FieldModel, SchemaField, TransactionModel, TransactionReport, field_models, transaction_models};
use super::analyze::{sort_by_time, sort_reports};
use crate::json::{text_lt, text_less, lemma_text_lt_irreflexive, lemma_text_lt_transitive, lemma_text_lt_total, lemma_text_lt_asymmetric};
use crate::json::{Json, JsonValue, JsonNumber, models, entry_models, lemma_entry_models, lemma_models_push};
use crate::text::{chars_occur_at, find_chars, str_eq, chars_of, chars_eq, has_suffix, has_prefix, contains_seq, first_index, occurs_at};

verus! {

/// How a path differs between a successful and a failing request.
pub struct SchemaDifference {
    pub path: String,
    pub successful_type: String,
    pub failing_type: String,
    pub classification: String,
}

pub struct DifferenceModel {
    pub path: Seq<char>,
    pub successful_type: Seq<char>,
    pub failing_type: Seq<char>,
    pub classification: Seq<char>,
}

impl SchemaDifference {
    pub open spec fn model(&self) -> DifferenceModel {
        DifferenceModel {
            path: self.path@,
            successful_type: self.successful_type@,
            failing_type: self.failing_type@,
            classification: self.classification@,
        }
    }
}

pub open spec fn difference_models(d: Seq<SchemaDifference>) -> Seq<DifferenceModel> {
    d.map_values(|x: SchemaDifference| x.model())
}

/// The field recorded for a path: the last one with that path.
pub open spec fn field_at(fields: Seq<FieldModel>, path: Seq<char>) -> Option<FieldModel>
    decreases fields.len(),
{
    if fields.len() == 0 {
        None
    } else if fields.last().path == path {
        Some(fields.last())
    } else {
        field_at(fields.drop_last(), path)
    }
}

pub open spec fn has_type(f: Option<FieldModel>, t: Seq<char>) -> bool {
    f matches Some(x) && x.value_type == t
}

pub open spec fn has_enum(f: Option<FieldModel>, e: Seq<char>) -> bool {
    f matches Some(x) && x.safe_enum == Some(e)
}

/// A schema change that a known lossless transform explains.
pub open spec fn known_transform(path: Seq<char>, good: Option<FieldModel>, bad: Option<FieldModel>) -> bool {
    good is Some && bad is Some && {
        ||| (has_suffix(path, ".replacement_history"@) || has_suffix(path, ".content"@)) && has_type(good, "array"@) && has_type(bad, "string"@)
        ||| has_suffix(path, ".arguments"@) && has_type(good, "string"@) && (has_type(bad, "object"@) || has_type(bad, "array"@))
        ||| contains_seq(path, ".content["@) && has_type(good, "object"@) && has_type(bad, "string"@)
        ||| has_suffix(path, ".output"@) && (has_type(good, "string"@) || has_type(good, "array"@)) && (has_type(bad, "object"@) || has_type(bad, "array"@))
        ||| has_suffix(path, ".type"@) && has_type(good, "string"@) && has_type(bad, "string"@)
            && (has_enum(good, "input_text"@) || has_enum(good, "output_text"@))
            && (has_enum(bad, "input_text"@) || has_enum(bad, "output_text"@))
    }
}

pub open spec fn classify_spec(path: Seq<char>, good: Option<FieldModel>, bad: Option<FieldModel>) -> Seq<char> {
    if known_transform(path, good, bad) {
        "lossless_known_transform"@
    } else {
        "ambiguous"@
    }
}

/// `path` lies strictly below `root`.
pub open spec fn is_descendant(path: Seq<char>, root: Seq<char>) -> bool {
    has_prefix(path, root) && path.len() > root.len() && (path[root.len() as int] == '.' || path[root.len() as int] == '[')
}

/// The path up to its first `[` is an array on both sides.
pub open spec fn array_sequence_variation(path: Seq<char>, success: Seq<FieldModel>, failure: Seq<FieldModel>) -> bool {
    match first_index(path, '[') {
        None => false,
        Some(i) => has_type(field_at(success, path.take(i)), "array"@) && has_type(field_at(failure, path.take(i)), "array"@),
    }
}

/// A field's type, with its allow-listed value when it has one.
pub open spec fn signature(f: Option<FieldModel>) -> Seq<char> {
    match f {
        None => "missing"@,
        Some(x) => match x.safe_enum {
            None => x.value_type,
            Some(e) => x.value_type + ":"@ + e,
        },
    }
}

pub open spec fn same_field(good: Option<FieldModel>, bad: Option<FieldModel>) -> bool {
    good matches Some(g) && bad matches Some(b) && g.value_type == b.value_type && g.safe_enum == b.safe_enum
}

/// A path at which a known transform applies on both sides.
pub open spec fn is_transform_root(success: Seq<FieldModel>, failure: Seq<FieldModel>, root: Seq<char>) -> bool {
    known_transform(root, field_at(success, root), field_at(failure, root))
}

/// The difference reported at one path, if any: none when both sides agree,
/// when the path lies below a known transform, or when it is an element of
/// an array present on both sides but on one side only.
pub open spec fn difference_at(path: Seq<char>, success: Seq<FieldModel>, failure: Seq<FieldModel>) -> Option<DifferenceModel> {
    let good = field_at(success, path);
    let bad = field_at(failure, path);
    if same_field(good, bad) {
        None
    } else if (exists|root: Seq<char>| root != path && is_descendant(path, root) && #[trigger] is_transform_root(success, failure, root))
        || ((good is None || bad is None) && array_sequence_variation(path, success, failure)) {
        None
    } else {
        Some(DifferenceModel {
            path: path,
            successful_type: signature(good),
            failing_type: signature(bad),
            classification: classify_spec(path, good, bad),
        })
    }
}

pub open spec fn differences_over(paths: Seq<Seq<char>>, success: Seq<FieldModel>, failure: Seq<FieldModel>) -> Seq<DifferenceModel>
    decreases paths.len(),
{
    if paths.len() == 0 {
        Seq::empty()
    } else {
        let rest = differences_over(paths.drop_last(), success, failure);
        match difference_at(paths.last(), success, failure) {
            Some(d) => rest.push(d),
            None => rest,
        }
    }
}

pub open spec fn has_path(fields: Seq<FieldModel>, path: Seq<char>) -> bool {
    exists|i: int| 0 <= i < fields.len() && #[trigger] fields[i].path == path
}

pub open spec fn strictly_ascending(paths: Seq<Seq<char>>) -> bool {
    forall|i: int, j: int| 0 <= i < j < paths.len() ==> text_lt(#[trigger] paths[i], #[trigger] paths[j])
}

/// Every path of either schema once, in ascending order.
pub open spec fn is_path_order(paths: Seq<Seq<char>>, success: Seq<FieldModel>, failure: Seq<FieldModel>) -> bool {
    &&& strictly_ascending(paths)
    &&& forall|p: Seq<char>| #[trigger] paths.contains(p) <==> (has_path(success, p) || has_path(failure, p))
}


/// Two ascending sequences with the same elements are the same sequence.
pub proof fn lemma_ascending_unique(a: Seq<Seq<char>>, b: Seq<Seq<char>>)
    requires
        strictly_ascending(a),
        strictly_ascending(b),
        forall|p: Seq<char>| #[trigger] a.contains(p) <==> b.contains(p),
    ensures
        a == b,
    decreases a.len(),
{
    if a.len() == 0 {
        if b.len() > 0 {
            assert(b.contains(b[0]));
            assert(a.contains(b[0]));
        }
        assert(a =~= b);
    } else {
        assert(a.contains(a[0]));
        assert(b.len() > 0);
        assert(b.contains(b[0]));
        assert(a.contains(b[0]));
        assert(b.contains(a[0]));
        let j = choose|j: int| 0 <= j < b.len() && b[j] == a[0];
        let k = choose|k: int| 0 <= k < a.len() && a[k] == b[0];
        if j > 0 {
            assert(text_lt(b[0], b[j]));
            if k > 0 {
                assert(text_lt(a[0], a[k]));
                lemma_text_lt_asymmetric(a[0], b[0]);
            } else {
                lemma_text_lt_irreflexive(a[0]);
            }
        }
        assert(a[0] == b[0]);
        let ta = a.drop_first();
        let tb = b.drop_first();
        assert forall|p: Seq<char>| #[trigger] ta.contains(p) <==> tb.contains(p) by {
            if ta.contains(p) {
                let i = choose|i: int| 0 <= i < ta.len() && ta[i] == p;
                assert(a[i + 1] == p);
                assert(text_lt(a[0], p));
                assert(a.contains(p));
                assert(b.contains(p));
                let m = choose|m: int| 0 <= m < b.len() && b[m] == p;
                if m == 0 {
                    lemma_text_lt_irreflexive(p);
                }
                assert(tb[m - 1] == p);
            }
            if tb.contains(p) {
                let i = choose|i: int| 0 <= i < tb.len() && tb[i] == p;
                assert(b[i + 1] == p);
                assert(text_lt(b[0], p));
                assert(b.contains(p));
                assert(a.contains(p));
                let m = choose|m: int| 0 <= m < a.len() && a[m] == p;
                if m == 0 {
                    lemma_text_lt_irreflexive(p);
                }
                assert(ta[m - 1] == p);
            }
        }
        assert(strictly_ascending(ta)) by {
            assert forall|i: int, j: int| 0 <= i < j < ta.len() implies text_lt(#[trigger] ta[i], #[trigger] ta[j]) by {
                assert(ta[i] == a[i + 1] && ta[j] == a[j + 1]);
            }
        }
        assert(strictly_ascending(tb)) by {
            assert forall|i: int, j: int| 0 <= i < j < tb.len() implies text_lt(#[trigger] tb[i], #[trigger] tb[j]) by {
                assert(tb[i] == b[i + 1] && tb[j] == b[j + 1]);
            }
        }
        lemma_ascending_unique(ta, tb);
        assert(a =~= seq![a[0]] + ta);
        assert(b =~= seq![b[0]] + tb);
    }
}

/// The paths of both schemas, each once, in ascending order.
pub open spec fn path_order(success: Seq<FieldModel>, failure: Seq<FieldModel>) -> Seq<Seq<char>> {
    choose|paths: Seq<Seq<char>>| is_path_order(paths, success, failure)
}

/// The differences between a successful and a failing request's schema,
/// path by path in ascending order.
pub open spec fn schema_differences_spec(success: Seq<FieldModel>, failure: Seq<FieldModel>) -> Seq<DifferenceModel> {
    differences_over(path_order(success, failure), success, failure)
}


pub open spec fn opt_field(o: Option<&SchemaField>) -> Option<FieldModel> {
    match o {
        Some(f) => Some(f.model()),
        None => None,
    }
}

pub proof fn lemma_field_at(fields: Seq<FieldModel>, path: Seq<char>)
    ensures
        field_at(fields, path) matches Some(f) ==> f.path == path && has_path(fields, path),
    decreases fields.len(),
{
    if fields.len() > 0 {
        lemma_field_at(fields.drop_last(), path);
        if fields.last().path != path {
            if field_at(fields.drop_last(), path) is Some {
                let i = choose|i: int| 0 <= i < fields.drop_last().len() && #[trigger] fields.drop_last()[i].path == path;
                assert(fields[i].path == path);
            }
        } else {
            assert(fields[fields.len() - 1].path == path);
        }
    }
}

proof fn lemma_field_at_present(fields: Seq<FieldModel>, path: Seq<char>)
    requires
        has_path(fields, path),
    ensures
        field_at(fields, path) is Some,
    decreases fields.len(),
{
    if fields.last().path != path {
        let i = choose|i: int| 0 <= i < fields.len() && #[trigger] fields[i].path == path;
        assert(fields.drop_last()[i].path == path);
        lemma_field_at_present(fields.drop_last(), path);
    }
}

/// Comparing a schema with itself finds no difference: at no path of the
/// schema, and so over any list of its paths (the path order that
/// `schema_differences` walks is one).
pub proof fn lemma_identical_schemas_have_no_differences(fields: Seq<FieldModel>, paths: Seq<Seq<char>>)
    requires
        forall|i: int| 0 <= i < paths.len() ==> has_path(fields, #[trigger] paths[i]),
    ensures
        differences_over(paths, fields, fields) == Seq::<DifferenceModel>::empty(),
    decreases paths.len(),
{
    if paths.len() > 0 {
        lemma_identical_schemas_have_no_differences(fields, paths.drop_last());
        lemma_field_at_present(fields, paths[paths.len() - 1]);
        assert(difference_at(paths.last(), fields, fields) is None);
    }
}

/// The paths of a list of differences, in order.
pub open spec fn difference_paths(r: Seq<DifferenceModel>) -> Seq<Seq<char>> {
    Seq::new(r.len(), |k: int| r[k].path)
}

/// What every list of schema differences satisfies: the paths ascend
/// strictly and each belongs to one of the schemas; no reported path has
/// the same field on both sides; each side is described by its field's
/// signature (`missing` where absent); and a path missing on one side is
/// classified `ambiguous`.
pub open spec fn differences_well_shaped(r: Seq<DifferenceModel>, success: Seq<FieldModel>, failure: Seq<FieldModel>) -> bool {
    &&& strictly_ascending(difference_paths(r))
    &&& forall|k: int| 0 <= k < r.len() ==> has_path(success, #[trigger] r[k].path) || has_path(failure, r[k].path)
    &&& forall|k: int| 0 <= k < r.len() ==> !same_field(field_at(success, #[trigger] r[k].path), field_at(failure, r[k].path))
    &&& forall|k: int| 0 <= k < r.len() ==> #[trigger] r[k].successful_type == signature(field_at(success, r[k].path))
        && r[k].failing_type == signature(field_at(failure, r[k].path))
    &&& forall|k: int| 0 <= k < r.len() ==> (field_at(success, #[trigger] r[k].path) is None || field_at(failure, r[k].path) is None)
        ==> r[k].classification == "ambiguous"@
}

proof fn lemma_difference_at_shape(path: Seq<char>, success: Seq<FieldModel>, failure: Seq<FieldModel>)
    ensures
        difference_at(path, success, failure) matches Some(d) ==> {
            &&& d.path == path
            &&& !same_field(field_at(success, path), field_at(failure, path))
            &&& d.successful_type == signature(field_at(success, path))
            &&& d.failing_type == signature(field_at(failure, path))
            &&& (field_at(success, path) is None || field_at(failure, path) is None) ==> d.classification == "ambiguous"@
        },
{
}

/// The differences over a strictly ascending list of paths are found at
/// those paths, in the same order.
proof fn lemma_differences_over_shape(paths: Seq<Seq<char>>, success: Seq<FieldModel>, failure: Seq<FieldModel>)
    requires
        strictly_ascending(paths),
    ensures
        forall|k: int| 0 <= k < differences_over(paths, success, failure).len() ==> paths.contains(
            #[trigger] differences_over(paths, success, failure)[k].path,
        ) && difference_at(differences_over(paths, success, failure)[k].path, success, failure)
            == Some(differences_over(paths, success, failure)[k]),
        strictly_ascending(difference_paths(differences_over(paths, success, failure))),
    decreases paths.len(),
{
    if paths.len() > 0 {
        let init = paths.drop_last();
        assert(strictly_ascending(init)) by {
            assert forall|i: int, j: int| 0 <= i < j < init.len() implies text_lt(#[trigger] init[i], #[trigger] init[j]) by {
                assert(init[i] == paths[i] && init[j] == paths[j]);
            }
        }
        lemma_differences_over_shape(init, success, failure);
        let rest = differences_over(init, success, failure);
        let last = paths.last();
        lemma_difference_at_shape(last, success, failure);
        assert forall|k: int| 0 <= k < rest.len() implies text_lt(#[trigger] rest[k].path, last) by {
            assert(init.contains(rest[k].path));
            let m = choose|m: int| 0 <= m < init.len() && init[m] == rest[k].path;
            assert(paths[m] == init[m]);
            assert(text_lt(paths[m], paths[paths.len() - 1]));
        }
        assert forall|k: int| 0 <= k < rest.len() implies paths.contains(#[trigger] rest[k].path) by {
            let m = choose|m: int| 0 <= m < init.len() && init[m] == rest[k].path;
            assert(paths[m] == init[m]);
        }
        match difference_at(last, success, failure) {
            Some(d) => {
                let r = rest.push(d);
                assert(r == differences_over(paths, success, failure));
                assert(paths.contains(last)) by {
                    assert(paths[paths.len() - 1] == last);
                }
                let rp = difference_paths(r);
                let sp = difference_paths(rest);
                assert forall|i: int, j: int| 0 <= i < j < rp.len() implies text_lt(#[trigger] rp[i], #[trigger] rp[j]) by {
                    if j < rest.len() {
                        assert(rp[i] == sp[i] && rp[j] == sp[j]);
                    } else {
                        assert(rp[i] == rest[i].path);
                    }
                }
            },
            None => {},
        }
    }
}

/// The differences over a path order of both schemas are well shaped.
proof fn lemma_path_order_differences_well_shaped(paths: Seq<Seq<char>>, success: Seq<FieldModel>, failure: Seq<FieldModel>)
    requires
        is_path_order(paths, success, failure),
    ensures
        differences_well_shaped(differences_over(paths, success, failure), success, failure),
{
    lemma_differences_over_shape(paths, success, failure);
    let r = differences_over(paths, success, failure);
    assert forall|k: int| 0 <= k < r.len() implies has_path(success, #[trigger] r[k].path) || has_path(failure, r[k].path)
        && !same_field(field_at(success, r[k].path), field_at(failure, r[k].path))
        && r[k].successful_type == signature(field_at(success, r[k].path))
        && r[k].failing_type == signature(field_at(failure, r[k].path))
        && ((field_at(success, r[k].path) is None || field_at(failure, r[k].path) is None) ==> r[k].classification == "ambiguous"@) by {
        assert(paths.contains(r[k].path));
        lemma_difference_at_shape(r[k].path, success, failure);
    }
}

/// The field recorded for `path` (see `field_at`).
pub fn field_lookup<'a>(fields: &'a Vec<SchemaField>, path: &[char]) -> (res: Option<&'a SchemaField>)
    ensures
        opt_field(res) == field_at(field_models(fields@), path@),
{
    let ghost fm = field_models(fields@);
    let mut i = fields.len();
    assert(fm.take(i as int) =~= fm);
    while i > 0
        invariant
            i <= fields@.len(),
            fm == field_models(fields@),
            field_at(fm, path@) == field_at(fm.take(i as int), path@),
        decreases i,
    {
        let f = &fields[i - 1];
        assert(fm.take(i as int).drop_last() =~= fm.take(i - 1));
        assert(fm.take(i as int).last() == f.model());
        if chars_eq(chars_of(f.path.as_str()).as_slice(), path) {
            return Some(f);
        }
        i = i - 1;
    }
    None
}

fn ends_with(s: &[char], suffix: &str) -> (res: bool)
    ensures
        res == has_suffix(s@, suffix@),
{
    let p = chars_of(suffix);
    if p.len() > s.len() {
        return false;
    }
    chars_occur_at(s, p.as_slice(), s.len() - p.len())
}

fn contains_text(s: &[char], pattern: &str) -> (res: bool)
    ensures
        res == contains_seq(s@, pattern@),
{
    let p = chars_of(pattern);
    let found = find_chars(s, p.as_slice(), 0);
    proof {
        crate::text::lemma_first_occurrence_from(s@, p@, 0);
        if found is None {
            assert forall|i: int| !#[trigger] occurs_at(s@, p@, i) by {
                if 0 <= i {
                }
            }
        }
    }
    found.is_some()
}

fn type_is(f: Option<&SchemaField>, t: &str) -> (res: bool)
    ensures
        res == has_type(opt_field(f), t@),
{
    match f {
        Some(x) => str_eq(x.value_type.as_str(), t),
        None => false,
    }
}

fn enum_is(f: Option<&SchemaField>, e: &str) -> (res: bool)
    ensures
        res == has_enum(opt_field(f), e@),
{
    match f {
        Some(x) => match &x.safe_enum {
            Some(v) => str_eq(v.as_str(), e),
            None => false,
        },
        None => false,
    }
}

/// Whether a known lossless transform explains the change at `path`.
pub fn is_known_transform(path: &[char], good: Option<&SchemaField>, bad: Option<&SchemaField>) -> (res: bool)
    ensures
        res == known_transform(path@, opt_field(good), opt_field(bad)),
{
    if good.is_none() || bad.is_none() {
        return false;
    }
    let history = (ends_with(path, ".replacement_history") || ends_with(path, ".content")) && type_is(good, "array") && type_is(bad, "string");
    let arguments = ends_with(path, ".arguments") && type_is(good, "string") && (type_is(bad, "object") || type_is(bad, "array"));
    let parts = contains_text(path, ".content[") && type_is(good, "object") && type_is(bad, "string");
    let output = ends_with(path, ".output") && (type_is(good, "string") || type_is(good, "array")) && (type_is(bad, "object") || type_is(bad, "array"));
    let kind = ends_with(path, ".type") && type_is(good, "string") && type_is(bad, "string")
        && (enum_is(good, "input_text") || enum_is(good, "output_text"))
        && (enum_is(bad, "input_text") || enum_is(bad, "output_text"));
    history || arguments || parts || output || kind
}

/// The classification of the change at `path`.
pub fn classify_difference(path: &[char], good: Option<&SchemaField>, bad: Option<&SchemaField>) -> (res: String)
    ensures
        res@ == classify_spec(path@, opt_field(good), opt_field(bad)),
{
    if is_known_transform(path, good, bad) {
        crate::text::string_of(chars_of("lossless_known_transform").as_slice())
    } else {
        crate::text::string_of(chars_of("ambiguous").as_slice())
    }
}

/// A field's type with its allow-listed value, or `missing`.
pub fn field_signature(f: Option<&SchemaField>) -> (res: String)
    ensures
        res@ == signature(opt_field(f)),
{
    match f {
        None => crate::text::string_of(chars_of("missing").as_slice()),
        Some(x) => match &x.safe_enum {
            None => crate::text::string_of(chars_of(x.value_type.as_str()).as_slice()),
            Some(e) => {
                let mut out = chars_of(x.value_type.as_str());
                super::report::append(&mut out, chars_of(":").as_slice());
                super::report::append(&mut out, chars_of(e.as_str()).as_slice());
                crate::text::string_of(out.as_slice())
            },
        },
    }
}

/// Whether `path` lies strictly below `root`.
pub fn is_descendant_path(path: &[char], root: &[char]) -> (res: bool)
    ensures
        res == is_descendant(path@, root@),
{
    if !chars_occur_at(path, root, 0) || path.len() <= root.len() {
        return false;
    }
    path[root.len()] == '.' || path[root.len()] == '['
}

/// Whether the array holding the element at `path` is an array on both sides.
pub fn is_array_sequence_variation(path: &[char], success: &Vec<SchemaField>, failure: &Vec<SchemaField>) -> (res: bool)
    ensures
        res == array_sequence_variation(path@, field_models(success@), field_models(failure@)),
{
    match crate::text::first_index_char(path, '[') {
        None => false,
        Some(i) => {
            let array_path = &path[0..i];
            assert(array_path@ =~= path@.take(i as int));
            type_is(field_lookup(success, array_path), "array") && type_is(field_lookup(failure, array_path), "array")
        },
    }
}


pub open spec fn text_models(v: Seq<Vec<char>>) -> Seq<Seq<char>> {
    v.map_values(|x: Vec<char>| x@)
}

/// Inserts a path into an ascending list unless it is there already.
pub fn insert_path(paths: &mut Vec<Vec<char>>, x: Vec<char>)
    requires
        strictly_ascending(text_models(old(paths)@)),
    ensures
        strictly_ascending(text_models(final(paths)@)),
        forall|p: Seq<char>| #[trigger] text_models(final(paths)@).contains(p) <==> (text_models(old(paths)@).contains(p) || p == x@),
{
    let ghost m = text_models(paths@);
    let mut p: usize = 0;
    while p < paths.len() && text_less(paths[p].as_slice(), x.as_slice())
        invariant
            p <= paths@.len(),
            m == text_models(paths@),
            forall|j: int| 0 <= j < p ==> text_lt(#[trigger] m[j], x@),
        decreases paths.len() - p,
    {
        p = p + 1;
    }
    if p < paths.len() && chars_eq(paths[p].as_slice(), x.as_slice()) {
        proof {
            assert(m[p as int] == x@);
            assert forall|q: Seq<char>| #[trigger] m.contains(q) <==> (m.contains(q) || q == x@) by {
                if q == x@ {
                    assert(m[p as int] == q);
                }
            }
        }
        return;
    }
    let ghost xm = x@;
    proof {
        if p < m.len() {
            lemma_text_lt_total(m[p as int], xm);
            assert(text_lt(xm, m[p as int]));
        }
    }
    paths.insert(p, x);
    proof {
        let n = text_models(paths@);
        assert(n =~= m.insert(p as int, xm));
        assert forall|i: int, j: int| 0 <= i < j < n.len() implies text_lt(#[trigger] n[i], #[trigger] n[j]) by {
            if j < p {
                assert(n[i] == m[i] && n[j] == m[j]);
            } else if j == p {
                assert(n[i] == m[i]);
            } else if i == p {
                assert(n[j] == m[j - 1]);
                if j - 1 > p {
                    lemma_text_lt_transitive(xm, m[p as int], m[j - 1]);
                }
            } else if i < p {
                assert(n[i] == m[i] && n[j] == m[j - 1]);
                if j - 1 >= p {
                    lemma_text_lt_transitive(m[i], xm, m[p as int]);
                    if j - 1 > p {
                        lemma_text_lt_transitive(m[i], m[p as int], m[j - 1]);
                    }
                }
            } else {
                assert(n[i] == m[i - 1] && n[j] == m[j - 1]);
            }
        }
        assert forall|q: Seq<char>| #[trigger] n.contains(q) <==> (m.contains(q) || q == xm) by {
            if m.contains(q) {
                let k = choose|k: int| 0 <= k < m.len() && m[k] == q;
                if k < p {
                    assert(n[k] == q);
                } else {
                    assert(n[k + 1] == q);
                }
            }
            if q == xm {
                assert(n[p as int] == q);
            }
            if n.contains(q) {
                let k = choose|k: int| 0 <= k < n.len() && n[k] == q;
                if k < p {
                    assert(m[k] == q);
                } else if k > p {
                    assert(m[k - 1] == q);
                }
            }
        }
    }
}

/// The paths of both schemas, each once, ascending (see `path_order`).
pub fn collect_paths(success: &Vec<SchemaField>, failure: &Vec<SchemaField>) -> (res: Vec<Vec<char>>)
    ensures
        text_models(res@) == path_order(field_models(success@), field_models(failure@)),
        is_path_order(text_models(res@), field_models(success@), field_models(failure@)),
{
    let ghost sm = field_models(success@);
    let ghost fm = field_models(failure@);
    let mut paths: Vec<Vec<char>> = Vec::new();
    let mut i: usize = 0;
    while i < success.len()
        invariant
            i <= success@.len(),
            sm == field_models(success@),
            strictly_ascending(text_models(paths@)),
            forall|p: Seq<char>| #[trigger] text_models(paths@).contains(p) <==> exists|k: int| 0 <= k < i && sm[k].path == p,
        decreases success.len() - i,
    {
        let x = chars_of(success[i].path.as_str());
        insert_path(&mut paths, x);
        proof {
            assert forall|p: Seq<char>| #[trigger] text_models(paths@).contains(p) <==> exists|k: int| 0 <= k < i + 1 && sm[k].path == p by {
                if p == sm[i as int].path {
                    assert(0 <= i < i + 1 && sm[i as int].path == p);
                }
            }
        }
        i = i + 1;
    }
    let mut j: usize = 0;
    while j < failure.len()
        invariant
            j <= failure@.len(),
            sm == field_models(success@),
            fm == field_models(failure@),
            strictly_ascending(text_models(paths@)),
            forall|p: Seq<char>| #[trigger] text_models(paths@).contains(p) <==> (has_path(sm, p) || exists|k: int| 0 <= k < j && fm[k].path == p),
        decreases failure.len() - j,
    {
        let x = chars_of(failure[j].path.as_str());
        insert_path(&mut paths, x);
        proof {
            assert forall|p: Seq<char>| #[trigger] text_models(paths@).contains(p) <==> (has_path(sm, p) || exists|k: int| 0 <= k < j + 1 && fm[k].path == p) by {
                if p == fm[j as int].path {
                    assert(0 <= j < j + 1 && fm[j as int].path == p);
                }
            }
        }
        j = j + 1;
    }
    let ghost result = text_models(paths@);
    proof {
        assert(is_path_order(result, sm, fm));
        let chosen = path_order(sm, fm);
        assert(is_path_order(chosen, sm, fm));
        lemma_ascending_unique(result, chosen);
    }
    paths
}


/// The paths at which a known transform applies.
fn transform_roots(paths: &Vec<Vec<char>>, success: &Vec<SchemaField>, failure: &Vec<SchemaField>) -> (res: Vec<Vec<char>>)
    requires
        forall|p: Seq<char>| #[trigger] text_models(paths@).contains(p) <==> (has_path(field_models(success@), p) || has_path(field_models(failure@), p)),
    ensures
        forall|r: Seq<char>| #[trigger] text_models(res@).contains(r) <==> is_transform_root(field_models(success@), field_models(failure@), r),
{
    let ghost sm = field_models(success@);
    let ghost fm = field_models(failure@);
    let ghost pm = text_models(paths@);
    let mut roots: Vec<Vec<char>> = Vec::new();
    let mut i: usize = 0;
    while i < paths.len()
        invariant
            i <= paths@.len(),
            sm == field_models(success@),
            fm == field_models(failure@),
            pm == text_models(paths@),
            forall|r: Seq<char>| #[trigger] text_models(roots@).contains(r) <==> (is_transform_root(sm, fm, r) && exists|k: int| 0 <= k < i && pm[k] == r),
        decreases paths.len() - i,
    {
        let path = paths[i].as_slice();
        assert(path@ == pm[i as int]);
        let good = field_lookup(success, path);
        let bad = field_lookup(failure, path);
        let ghost before = text_models(roots@);
        let added = is_known_transform(path, good, bad);
        assert(added == is_transform_root(sm, fm, pm[i as int]));
        if added {
            roots.push(crate::text::copy_chars(path));
        }
        proof {
            let new = text_models(roots@);
            if added {
                assert(new =~= before.push(pm[i as int]));
            } else {
                assert(new =~= before);
            }
            assert forall|r: Seq<char>| #[trigger] new.contains(r) <==> (is_transform_root(sm, fm, r) && exists|k: int| 0 <= k < i + 1 && pm[k] == r) by {
                let old_side = exists|k: int| 0 <= k < i && pm[k] == r;
                let new_side = exists|k: int| 0 <= k < i + 1 && pm[k] == r;
                if old_side {
                    let k = choose|k: int| 0 <= k < i && pm[k] == r;
                    assert(0 <= k < i + 1 && pm[k] == r);
                }
                if new_side && !old_side {
                    let k = choose|k: int| 0 <= k < i + 1 && pm[k] == r;
                    assert(k == i);
                }
                if r == pm[i as int] {
                    assert(0 <= i < i + 1 && pm[i as int] == r);
                }
                if added {
                    if new.contains(r) && !before.contains(r) {
                        let k = choose|k: int| 0 <= k < new.len() && new[k] == r;
                        assert(k == before.len());
                    }
                    if before.contains(r) {
                        let k = choose|k: int| 0 <= k < before.len() && before[k] == r;
                        assert(new[k] == r);
                    }
                    if r == pm[i as int] {
                        assert(new[before.len() as int] == r);
                    }
                }
            }
        }
        i = i + 1;
    }
    proof {
        assert forall|r: Seq<char>| #[trigger] text_models(roots@).contains(r) <==> is_transform_root(sm, fm, r) by {
            if is_transform_root(sm, fm, r) {
                lemma_field_at(sm, r);
                assert(pm.contains(r));
                let k = choose|k: int| 0 <= k < pm.len() && pm[k] == r;
                assert(0 <= k < paths@.len() && pm[k] == r);
            }
        }
    }
    roots
}

/// Whether some root other than `path` lies above it.
fn below_some_root(path: &[char], roots: &Vec<Vec<char>>) -> (res: bool)
    ensures
        res == exists|k: int| 0 <= k < roots@.len() && roots@[k]@ != path@ && is_descendant(path@, #[trigger] roots@[k]@),
{
    let mut k: usize = 0;
    while k < roots.len()
        invariant
            k <= roots@.len(),
            forall|j: int| 0 <= j < k ==> !(roots@[j]@ != path@ && is_descendant(path@, #[trigger] roots@[j]@)),
        decreases roots.len() - k,
    {
        if !chars_eq(roots[k].as_slice(), path) && is_descendant_path(path, roots[k].as_slice()) {
            return true;
        }
        k = k + 1;
    }
    false
}

/// The differences between the schema of a successful request and that of
/// a failing one, in ascending path order.
pub fn schema_differences(success: &Vec<SchemaField>, failure: &Vec<SchemaField>) -> (res: Vec<SchemaDifference>)
    ensures
        difference_models(res@) == schema_differences_spec(field_models(success@), field_models(failure@)),
        differences_well_shaped(difference_models(res@), field_models(success@), field_models(failure@)),
        field_models(success@) == field_models(failure@) ==> res@.len() == 0,
{
    let ghost sm = field_models(success@);
    let ghost fm = field_models(failure@);
    let paths = collect_paths(success, failure);
    let ghost pm = text_models(paths@);
    let roots = transform_roots(&paths, success, failure);
    let mut out: Vec<SchemaDifference> = Vec::new();
    let mut i: usize = 0;
    assert(difference_models(out@) =~= differences_over(pm.take(0), sm, fm));
    while i < paths.len()
        invariant
            i <= paths@.len(),
            sm == field_models(success@),
            fm == field_models(failure@),
            pm == text_models(paths@),
            forall|r: Seq<char>| #[trigger] text_models(roots@).contains(r) <==> is_transform_root(sm, fm, r),
            difference_models(out@) == differences_over(pm.take(i as int), sm, fm),
        decreases paths.len() - i,
    {
        let path = paths[i].as_slice();
        let ghost pth = pm[i as int];
        assert(path@ == pth);
        assert(pm.take(i + 1).drop_last() =~= pm.take(i as int));
        assert(pm.take(i + 1).last() == pth);
        let good = field_lookup(success, path);
        let bad = field_lookup(failure, path);
        let same = match (good, bad) {
            (Some(g), Some(b)) => str_eq(g.value_type.as_str(), b.value_type.as_str()) && match (&g.safe_enum, &b.safe_enum) {
                (Some(x), Some(y)) => str_eq(x.as_str(), y.as_str()),
                (None, None) => true,
                _ => false,
            },
            _ => false,
        };
        assert(same == same_field(opt_field(good), opt_field(bad)));
        let ghost before = difference_models(out@);
        if !same {
            let below = below_some_root(path, &roots);
            proof {
                let spec_below = exists|root: Seq<char>| root != pth && is_descendant(pth, root) && #[trigger] is_transform_root(sm, fm, root);
                if below {
                    let k = choose|k: int| 0 <= k < roots@.len() && roots@[k]@ != path@ && is_descendant(path@, #[trigger] roots@[k]@);
                    assert(text_models(roots@)[k] == roots@[k]@);
                    assert(text_models(roots@).contains(roots@[k]@));
                    assert(is_transform_root(sm, fm, roots@[k]@));
                }
                if spec_below {
                    let root = choose|root: Seq<char>| root != pth && is_descendant(pth, root) && #[trigger] is_transform_root(sm, fm, root);
                    assert(text_models(roots@).contains(root));
                    let k = choose|k: int| 0 <= k < text_models(roots@).len() && text_models(roots@)[k] == root;
                    assert(roots@[k]@ == root);
                }
                assert(below == spec_below);
            }
            let variation = (good.is_none() || bad.is_none()) && is_array_sequence_variation(path, success, failure);
            if !below && !variation {
                let d = SchemaDifference {
                    path: crate::text::string_of(path),
                    successful_type: field_signature(good),
                    failing_type: field_signature(bad),
                    classification: classify_difference(path, good, bad),
                };
                out.push(d);
                proof {
                    assert(difference_models(out@) =~= before.push(d.model()));
                }
            }
        }
        i = i + 1;
    }
    assert(pm.take(pm.len() as int) =~= pm);
    proof {
        lemma_path_order_differences_well_shaped(pm, sm, fm);
        if sm == fm {
            assert forall|i: int| 0 <= i < pm.len() implies has_path(sm, #[trigger] pm[i]) by {
                assert(pm.contains(pm[i]));
            }
            lemma_identical_schemas_have_no_differences(sm, pm);
        }
    }
    out
}


/// What the passive capture says about a failure.
pub struct PassiveEvidence {
    pub attempted: bool,
    pub supports_lossless_repair: bool,
    pub status: String,
    pub failed_request_at_unix_ms: Option<u64>,
    pub baseline_request_at_unix_ms: Option<u64>,
    pub schema_differences: Vec<SchemaDifference>,
}

pub struct EvidenceModel {
    pub attempted: bool,
    pub supports_lossless_repair: bool,
    pub status: Seq<char>,
    pub failed_request_at_unix_ms: Option<u64>,
    pub baseline_request_at_unix_ms: Option<u64>,
    pub schema_differences: Seq<DifferenceModel>,
}

impl PassiveEvidence {
    pub open spec fn model(&self) -> EvidenceModel {
        EvidenceModel {
            attempted: self.attempted,
            supports_lossless_repair: self.supports_lossless_repair,
            status: self.status@,
            failed_request_at_unix_ms: self.failed_request_at_unix_ms,
            baseline_request_at_unix_ms: self.baseline_request_at_unix_ms,
            schema_differences: difference_models(self.schema_differences@),
        }
    }

    /// The evidence when no capture was asked for.
    pub fn not_requested() -> (res: Self)
        ensures
            res.model() == (EvidenceModel {
                attempted: false,
                supports_lossless_repair: false,
                status: "not_requested"@,
                failed_request_at_unix_ms: None,
                baseline_request_at_unix_ms: None,
                schema_differences: Seq::empty(),
            }),
    {
        let res = PassiveEvidence {
            attempted: false,
            supports_lossless_repair: false,
            status: crate::text::string_of(chars_of("not_requested").as_slice()),
            failed_request_at_unix_ms: None,
            baseline_request_at_unix_ms: None,
            schema_differences: Vec::new(),
        };
        assert(res.model().schema_differences =~= Seq::<DifferenceModel>::empty());
        res
    }
}

/// A request that failed: an error status or an error envelope.
pub open spec fn is_failed(t: TransactionModel) -> bool {
    (t.response_status matches Some(s) && s >= 400) || t.response_error_envelope
}

/// A request that succeeded: a 2xx or 3xx status and no error envelope.
pub open spec fn is_success(t: TransactionModel) -> bool {
    (t.response_status matches Some(s) && 200 <= s < 400) && !t.response_error_envelope
}

/// Two requests share an identifier hash, or one of them has none.
pub open spec fn identifiers_compatible(left: TransactionModel, right: TransactionModel) -> bool {
    left.identifiers.len() == 0 || right.identifiers.len() == 0 || exists|i: int, j: int|
        0 <= i < left.identifiers.len() && 0 <= j < right.identifiers.len() && #[trigger] left.identifiers[i].1 == #[trigger] right.identifiers[j].1
}

pub open spec fn abs_diff(a: u64, b: u64) -> int {
    if a >= b { a - b } else { b - a }
}

pub open spec fn failed_candidate(t: TransactionModel, reference: u64, window: u64) -> bool {
    is_failed(t) && abs_diff(t.request_at_unix_ms, reference) <= window
}

/// The failed request closest in time to the reference, within the window;
/// the earliest of equally close ones.
pub open spec fn closest_failed(ts: Seq<TransactionModel>, reference: u64, window: u64) -> Option<int>
    decreases ts.len(),
{
    if ts.len() == 0 {
        None
    } else {
        let best = closest_failed(ts.drop_last(), reference, window);
        let k = ts.len() - 1;
        if !failed_candidate(ts[k], reference, window) {
            best
        } else {
            match best {
                None => Some(k),
                Some(j) => if abs_diff(ts[k].request_at_unix_ms, reference) < abs_diff(ts[j].request_at_unix_ms, reference) {
                    Some(k)
                } else {
                    Some(j)
                },
            }
        }
    }
}

pub open spec fn baseline_candidate(t: TransactionModel, failed: TransactionModel) -> bool {
    is_success(t) && t.request_at_unix_ms < failed.request_at_unix_ms && t.target_hash == failed.target_hash
        && identifiers_compatible(t, failed)
}

/// The latest earlier successful request to the same target with compatible
/// identifiers; the last of equally late ones.
pub open spec fn latest_baseline(ts: Seq<TransactionModel>, failed: TransactionModel) -> Option<int>
    decreases ts.len(),
{
    if ts.len() == 0 {
        None
    } else {
        let best = latest_baseline(ts.drop_last(), failed);
        let k = ts.len() - 1;
        if !baseline_candidate(ts[k], failed) {
            best
        } else {
            match best {
                None => Some(k),
                Some(j) => if ts[k].request_at_unix_ms >= ts[j].request_at_unix_ms { Some(k) } else { Some(j) },
            }
        }
    }
}

pub open spec fn all_lossless(d: Seq<DifferenceModel>) -> bool {
    forall|i: int| 0 <= i < d.len() ==> #[trigger] d[i].classification == "lossless_known_transform"@
}

/// The evidence drawn from reports already ordered by request time.
pub open spec fn evidence_spec(ts: Seq<TransactionModel>, reference: u64, window: u64) -> EvidenceModel {
    match closest_failed(ts, reference, window) {
        None => EvidenceModel {
            attempted: true,
            supports_lossless_repair: false,
            status: "no_correlated_failed_request"@,
            failed_request_at_unix_ms: None,
            baseline_request_at_unix_ms: None,
            schema_differences: Seq::empty(),
        },
        Some(f) => match latest_baseline(ts, ts[f]) {
            None => EvidenceModel {
                attempted: true,
                supports_lossless_repair: false,
                status: "no_prior_successful_baseline"@,
                failed_request_at_unix_ms: Some(ts[f].request_at_unix_ms),
                baseline_request_at_unix_ms: None,
                schema_differences: Seq::empty(),
            },
            Some(b) => {
                let d = schema_differences_spec(ts[b].schema, ts[f].schema);
                let supports = d.len() > 0 && all_lossless(d);
                EvidenceModel {
                    attempted: true,
                    supports_lossless_repair: supports,
                    status: if supports {
                        "lossless_schema_delta"@
                    } else if d.len() == 0 {
                        "no_schema_delta"@
                    } else {
                        "ambiguous_schema_delta"@
                    },
                    failed_request_at_unix_ms: Some(ts[f].request_at_unix_ms),
                    baseline_request_at_unix_ms: Some(ts[b].request_at_unix_ms),
                    schema_differences: d,
                }
            },
        },
    }
}

/// The evidence from a set of reports: ordered by request time, then the
/// failure closest to `reference_unix_ms` within `window_ms` is compared
/// with its latest successful baseline.
pub open spec fn correlate_spec(ts: Seq<TransactionModel>, reference: u64, window: u64) -> EvidenceModel {
    evidence_spec(sort_by_time(ts), reference, window)
}


proof fn lemma_closest_failed(ts: Seq<TransactionModel>, reference: u64, window: u64)
    ensures
        closest_failed(ts, reference, window) matches Some(f) ==> 0 <= f < ts.len() && failed_candidate(ts[f], reference, window),
    decreases ts.len(),
{
    if ts.len() > 0 {
        lemma_closest_failed(ts.drop_last(), reference, window);
    }
}

proof fn lemma_latest_baseline(ts: Seq<TransactionModel>, failed: TransactionModel)
    ensures
        latest_baseline(ts, failed) matches Some(b) ==> 0 <= b < ts.len() && baseline_candidate(ts[b], failed),
    decreases ts.len(),
{
    if ts.len() > 0 {
        lemma_latest_baseline(ts.drop_last(), failed);
    }
}

/// The baseline for a failed request is the latest candidate: a successful
/// request before the failure, to the same target, with compatible
/// identifiers, such that no other candidate was made later, and no later
/// position holds a candidate made at the same time. There is no baseline
/// exactly when no request is a candidate.
pub proof fn lemma_latest_baseline_is_latest(ts: Seq<TransactionModel>, failed: TransactionModel)
    ensures
        latest_baseline(ts, failed) matches Some(b) ==> {
            &&& 0 <= b < ts.len()
            &&& baseline_candidate(ts[b], failed)
            &&& forall|k: int| 0 <= k < ts.len() && #[trigger] baseline_candidate(ts[k], failed)
                ==> ts[k].request_at_unix_ms <= ts[b].request_at_unix_ms
            &&& forall|k: int| b < k < ts.len() && #[trigger] baseline_candidate(ts[k], failed)
                ==> ts[k].request_at_unix_ms < ts[b].request_at_unix_ms
        },
        latest_baseline(ts, failed) is None ==> forall|k: int| 0 <= k < ts.len() ==> !#[trigger] baseline_candidate(ts[k], failed),
    decreases ts.len(),
{
    if ts.len() > 0 {
        let init = ts.drop_last();
        lemma_latest_baseline_is_latest(init, failed);
        let last = ts.len() - 1;
        assert forall|k: int| 0 <= k < init.len() implies #[trigger] init[k] == ts[k] by {}
        if baseline_candidate(ts[last], failed) {
            match latest_baseline(init, failed) {
                None => {
                    assert forall|k: int| 0 <= k < ts.len() && #[trigger] baseline_candidate(ts[k], failed)
                        implies k == last by {
                        if k < last {
                            assert(baseline_candidate(init[k], failed));
                        }
                    }
                },
                Some(j) => {
                    assert forall|k: int| 0 <= k < last && #[trigger] baseline_candidate(ts[k], failed)
                        implies ts[k].request_at_unix_ms <= ts[j].request_at_unix_ms by {
                        assert(baseline_candidate(init[k], failed));
                    }
                    assert forall|k: int| j < k < last && #[trigger] baseline_candidate(ts[k], failed)
                        implies ts[k].request_at_unix_ms < ts[j].request_at_unix_ms by {
                        assert(baseline_candidate(init[k], failed));
                    }
                },
            }
        } else {
            assert forall|k: int| 0 <= k < last && #[trigger] baseline_candidate(ts[k], failed)
                implies baseline_candidate(init[k], failed) by {}
        }
    }
}

/// The failure that evidence is drawn from is the failed request closest in
/// time to the reference within the window: no other failed request in the
/// window is closer, and none at a later position is as close. There is
/// none exactly when no failed request lies within the window.
pub proof fn lemma_closest_failed_is_closest(ts: Seq<TransactionModel>, reference: u64, window: u64)
    ensures
        closest_failed(ts, reference, window) matches Some(f) ==> {
            &&& 0 <= f < ts.len()
            &&& failed_candidate(ts[f], reference, window)
            &&& forall|k: int| 0 <= k < ts.len() && #[trigger] failed_candidate(ts[k], reference, window)
                ==> abs_diff(ts[f].request_at_unix_ms, reference) <= abs_diff(ts[k].request_at_unix_ms, reference)
            &&& forall|k: int| 0 <= k < f && #[trigger] failed_candidate(ts[k], reference, window)
                ==> abs_diff(ts[f].request_at_unix_ms, reference) < abs_diff(ts[k].request_at_unix_ms, reference)
        },
        closest_failed(ts, reference, window) is None ==> forall|k: int| 0 <= k < ts.len() ==> !#[trigger] failed_candidate(ts[k], reference, window),
    decreases ts.len(),
{
    if ts.len() > 0 {
        let init = ts.drop_last();
        lemma_closest_failed_is_closest(init, reference, window);
        let last = ts.len() - 1;
        assert forall|k: int| 0 <= k < init.len() implies #[trigger] init[k] == ts[k] by {}
        if failed_candidate(ts[last], reference, window) {
            match closest_failed(init, reference, window) {
                None => {
                    assert forall|k: int| 0 <= k < ts.len() && #[trigger] failed_candidate(ts[k], reference, window)
                        implies k == last by {
                        if k < last {
                            assert(failed_candidate(init[k], reference, window));
                        }
                    }
                },
                Some(j) => {
                    assert forall|k: int| 0 <= k < last && #[trigger] failed_candidate(ts[k], reference, window)
                        implies abs_diff(ts[j].request_at_unix_ms, reference) <= abs_diff(ts[k].request_at_unix_ms, reference) by {
                        assert(failed_candidate(init[k], reference, window));
                    }
                    assert forall|k: int| 0 <= k < j && #[trigger] failed_candidate(ts[k], reference, window)
                        implies abs_diff(ts[j].request_at_unix_ms, reference) < abs_diff(ts[k].request_at_unix_ms, reference) by {
                        assert(failed_candidate(init[k], reference, window));
                    }
                },
            }
        } else {
            assert forall|k: int| 0 <= k < last && #[trigger] failed_candidate(ts[k], reference, window)
                implies failed_candidate(init[k], reference, window) by {}
        }
    }
}

/// The evidence names, as its baseline time, the request time of the latest
/// successful request made before the correlated failure to the same target
/// with compatible identifiers, among the reports ordered by request time;
/// where a failure was found and no such request exists, it names none.
pub proof fn lemma_evidence_baseline_is_latest(ts: Seq<TransactionModel>, reference: u64, window: u64)
    ensures
        ({
            let s = sort_by_time(ts);
            let e = correlate_spec(ts, reference, window);
            match e.baseline_request_at_unix_ms {
                Some(x) => exists|f: int, b: int| #![trigger s[f], s[b]]
                    0 <= f < s.len() && 0 <= b < s.len()
                    && failed_candidate(s[f], reference, window)
                    && e.failed_request_at_unix_ms == Some(s[f].request_at_unix_ms)
                    && baseline_candidate(s[b], s[f])
                    && s[b].request_at_unix_ms == x
                    && (forall|k: int| 0 <= k < s.len() && #[trigger] baseline_candidate(s[k], s[f])
                        ==> s[k].request_at_unix_ms <= x),
                None => e.failed_request_at_unix_ms is Some ==> exists|f: int| #![trigger s[f]]
                    0 <= f < s.len()
                    && failed_candidate(s[f], reference, window)
                    && e.failed_request_at_unix_ms == Some(s[f].request_at_unix_ms)
                    && (forall|k: int| 0 <= k < s.len() ==> !#[trigger] baseline_candidate(s[k], s[f])),
            }
        }),
{
    let s = sort_by_time(ts);
    lemma_closest_failed_is_closest(s, reference, window);
    match closest_failed(s, reference, window) {
        None => {},
        Some(f) => {
            lemma_latest_baseline_is_latest(s, s[f]);
            match latest_baseline(s, s[f]) {
                None => {
                    assert(s[f] == s[f]);
                },
                Some(b) => {
                    assert(s[f] == s[f] && s[b] == s[b]);
                },
            }
        },
    }
}

/// Passive capture supports a repair only on full evidence: a failed
/// request within the window of the reference time, an earlier successful
/// request to the same target with compatible identifiers, and a non-empty
/// schema difference between the two in which every path is a known
/// lossless transformation. Missing evidence never supports a repair.
pub proof fn lemma_repair_needs_full_evidence(ts: Seq<TransactionModel>, reference: u64, window: u64)
    requires
        correlate_spec(ts, reference, window).supports_lossless_repair,
    ensures
        exists|f: int, b: int| #![trigger sort_by_time(ts)[f], sort_by_time(ts)[b]]
            0 <= f < sort_by_time(ts).len() && 0 <= b < sort_by_time(ts).len()
            && failed_candidate(sort_by_time(ts)[f], reference, window)
            && baseline_candidate(sort_by_time(ts)[b], sort_by_time(ts)[f])
            && correlate_spec(ts, reference, window).schema_differences
                == schema_differences_spec(sort_by_time(ts)[b].schema, sort_by_time(ts)[f].schema),
        correlate_spec(ts, reference, window).schema_differences.len() > 0,
        all_lossless(correlate_spec(ts, reference, window).schema_differences),
        correlate_spec(ts, reference, window).status == "lossless_schema_delta"@,
{
    let s = sort_by_time(ts);
    lemma_closest_failed(s, reference, window);
    let f = closest_failed(s, reference, window).unwrap();
    lemma_latest_baseline(s, s[f]);
    let b = latest_baseline(s, s[f]).unwrap();
    assert(failed_candidate(s[f], reference, window));
    assert(baseline_candidate(s[b], s[f]));
}

fn is_failed_exec(t: &TransactionReport) -> (res: bool)
    ensures
        res == is_failed(t.model()),
{
    match t.response_status {
        Some(st) => st >= 400 || t.response_error_envelope,
        None => t.response_error_envelope,
    }
}

fn is_success_exec(t: &TransactionReport) -> (res: bool)
    ensures
        res == is_success(t.model()),
{
    match t.response_status {
        Some(st) => 200 <= st && st < 400 && !t.response_error_envelope,
        None => false,
    }
}

fn identifiers_compatible_exec(left: &TransactionReport, right: &TransactionReport) -> (res: bool)
    ensures
        res == identifiers_compatible(left.model(), right.model()),
{
    let ghost l = left.model().identifiers;
    let ghost r = right.model().identifiers;
    if left.identifiers.len() == 0 || right.identifiers.len() == 0 {
        return true;
    }
    let mut i: usize = 0;
    while i < left.identifiers.len()
        invariant
            i <= left.identifiers@.len(),
            l == left.model().identifiers,
            r == right.model().identifiers,
            l.len() == left.identifiers@.len(),
            r.len() == right.identifiers@.len(),
            forall|a: int, b: int| 0 <= a < i && 0 <= b < r.len() ==> #[trigger] l[a].1 != #[trigger] r[b].1,
        decreases left.identifiers.len() - i,
    {
        let mut j: usize = 0;
        while j < right.identifiers.len()
            invariant
                i < left.identifiers@.len(),
                j <= right.identifiers@.len(),
                l == left.model().identifiers,
                r == right.model().identifiers,
                l.len() == left.identifiers@.len(),
                r.len() == right.identifiers@.len(),
                forall|a: int, b: int| 0 <= a < i && 0 <= b < r.len() ==> #[trigger] l[a].1 != #[trigger] r[b].1,
                forall|b: int| 0 <= b < j ==> l[i as int].1 != #[trigger] r[b].1,
            decreases right.identifiers.len() - j,
        {
            assert(l[i as int].1 == left.identifiers@[i as int].1@);
            assert(r[j as int].1 == right.identifiers@[j as int].1@);
            if str_eq(left.identifiers[i].1.as_str(), right.identifiers[j].1.as_str()) {
                assert(l[i as int].1 == r[j as int].1);
                return true;
            }
            j = j + 1;
        }
        i = i + 1;
    }
    false
}

fn abs_diff_exec(a: u64, b: u64) -> (res: u64)
    ensures
        res == abs_diff(a, b),
{
    if a >= b { a - b } else { b - a }
}

/// Index of the failed request closest to the reference (see `closest_failed`).
fn closest_failed_exec(ts: &Vec<TransactionReport>, reference: u64, window: u64) -> (res: Option<usize>)
    ensures
        match res {
            Some(i) => i < ts@.len() && closest_failed(transaction_models(ts@), reference, window) == Some(i as int),
            None => closest_failed(transaction_models(ts@), reference, window) is None,
        },
{
    let ghost tm = transaction_models(ts@);
    let mut best: Option<usize> = None;
    let mut k: usize = 0;
    while k < ts.len()
        invariant
            k <= ts@.len(),
            tm == transaction_models(ts@),
            match best {
                Some(j) => j < k && closest_failed(tm.take(k as int), reference, window) == Some(j as int),
                None => closest_failed(tm.take(k as int), reference, window) is None,
            },
        decreases ts.len() - k,
    {
        let t = &ts[k];
        assert(tm.take(k + 1).drop_last() =~= tm.take(k as int));
        assert(tm.take(k + 1)[k as int] == t.model());
        if is_failed_exec(t) && abs_diff_exec(t.request_at_unix_ms, reference) <= window {
            match best {
                None => { best = Some(k); },
                Some(j) => {
                    assert(tm.take(k + 1)[j as int] == ts@[j as int].model());
                    if abs_diff_exec(t.request_at_unix_ms, reference) < abs_diff_exec(ts[j].request_at_unix_ms, reference) {
                        best = Some(k);
                    }
                },
            }
        }
        k = k + 1;
    }
    assert(tm.take(tm.len() as int) =~= tm);
    best
}

/// Index of the baseline for a failed request (see `latest_baseline`).
fn latest_baseline_exec(ts: &Vec<TransactionReport>, failed: &TransactionReport) -> (res: Option<usize>)
    ensures
        match res {
            Some(i) => i < ts@.len() && latest_baseline(transaction_models(ts@), failed.model()) == Some(i as int),
            None => latest_baseline(transaction_models(ts@), failed.model()) is None,
        },
{
    let ghost tm = transaction_models(ts@);
    let mut best: Option<usize> = None;
    let mut k: usize = 0;
    while k < ts.len()
        invariant
            k <= ts@.len(),
            tm == transaction_models(ts@),
            match best {
                Some(j) => j < k && latest_baseline(tm.take(k as int), failed.model()) == Some(j as int),
                None => latest_baseline(tm.take(k as int), failed.model()) is None,
            },
        decreases ts.len() - k,
    {
        let t = &ts[k];
        assert(tm.take(k + 1).drop_last() =~= tm.take(k as int));
        assert(tm.take(k + 1)[k as int] == t.model());
        if is_success_exec(t) && t.request_at_unix_ms < failed.request_at_unix_ms
            && str_eq(t.target_hash.as_str(), failed.target_hash.as_str()) && identifiers_compatible_exec(t, failed) {
            match best {
                None => { best = Some(k); },
                Some(j) => {
                    assert(tm.take(k + 1)[j as int] == ts@[j as int].model());
                    if t.request_at_unix_ms >= ts[j].request_at_unix_ms {
                        best = Some(k);
                    }
                },
            }
        }
        k = k + 1;
    }
    assert(tm.take(tm.len() as int) =~= tm);
    best
}

fn status_text(s: &str) -> (res: String)
    ensures
        res@ == s@,
{
    crate::text::string_of(chars_of(s).as_slice())
}

/// The evidence from reports ordered by request time (see `evidence_spec`).
pub fn evidence_from(ts: &Vec<TransactionReport>, reference_unix_ms: u64, window_ms: u64) -> (res: PassiveEvidence)
    ensures
        res.model() == evidence_spec(transaction_models(ts@), reference_unix_ms, window_ms),
{
    let ghost tm = transaction_models(ts@);
    let f = match closest_failed_exec(ts, reference_unix_ms, window_ms) {
        None => {
            let res = PassiveEvidence {
                attempted: true,
                supports_lossless_repair: false,
                status: status_text("no_correlated_failed_request"),
                failed_request_at_unix_ms: None,
                baseline_request_at_unix_ms: None,
                schema_differences: Vec::new(),
            };
            assert(res.model().schema_differences =~= Seq::<DifferenceModel>::empty());
            return res;
        },
        Some(f) => f,
    };
    let failed = &ts[f];
    assert(tm[f as int] == failed.model());
    let b = match latest_baseline_exec(ts, failed) {
        None => {
            let res = PassiveEvidence {
                attempted: true,
                supports_lossless_repair: false,
                status: status_text("no_prior_successful_baseline"),
                failed_request_at_unix_ms: Some(failed.request_at_unix_ms),
                baseline_request_at_unix_ms: None,
                schema_differences: Vec::new(),
            };
            assert(res.model().schema_differences =~= Seq::<DifferenceModel>::empty());
            return res;
        },
        Some(b) => b,
    };
    let baseline = &ts[b];
    assert(tm[b as int] == baseline.model());
    let differences = schema_differences(&baseline.schema, &failed.schema);
    let ghost dm = difference_models(differences@);
    let mut all: bool = true;
    let mut i: usize = 0;
    while i < differences.len()
        invariant
            i <= differences@.len(),
            dm == difference_models(differences@),
            all == forall|j: int| 0 <= j < i ==> #[trigger] dm[j].classification == "lossless_known_transform"@,
        decreases differences.len() - i,
    {
        assert(dm[i as int].classification == differences@[i as int].classification@);
        if !str_eq(differences[i].classification.as_str(), "lossless_known_transform") {
            all = false;
        }
        i = i + 1;
    }
    let supports = differences.len() > 0 && all;
    let status = if supports {
        status_text("lossless_schema_delta")
    } else if differences.len() == 0 {
        status_text("no_schema_delta")
    } else {
        status_text("ambiguous_schema_delta")
    };
    PassiveEvidence {
        attempted: true,
        supports_lossless_repair: supports,
        status,
        failed_request_at_unix_ms: Some(failed.request_at_unix_ms),
        baseline_request_at_unix_ms: Some(baseline.request_at_unix_ms),
        schema_differences: differences,
    }
}

/// Correlates captured transactions with a failure at `reference_unix_ms`:
/// the failed request closest to it within `window_ms`, the latest earlier
/// successful request to the same target with compatible identifiers, and
/// how their schemas differ.
pub fn correlate_reports(transactions: Vec<TransactionReport>, reference_unix_ms: u64, window_ms: u64) -> (res: PassiveEvidence)
    ensures
        res.model() == correlate_spec(transaction_models(transactions@), reference_unix_ms, window_ms),
{
    let sorted = sort_reports(transactions);
    evidence_from(&sorted, reference_unix_ms, window_ms)
}


pub open spec fn json_u64(n: u64) -> Json {
    Json::Number(crate::text::decimal_text(n as nat), Some(n))
}

pub open spec fn json_opt_u64(n: Option<u64>) -> Json {
    match n {
        Some(v) => json_u64(v),
        None => Json::Null,
    }
}

/// A difference as a JSON object (members in key order).
pub open spec fn difference_json(d: DifferenceModel) -> Json {
    Json::Object(seq![
        ("classification"@, Json::Str(d.classification)),
        ("failing_type"@, Json::Str(d.failing_type)),
        ("path"@, Json::Str(d.path)),
        ("successful_type"@, Json::Str(d.successful_type)),
    ])
}

/// The evidence as a JSON object (members in key order).
pub open spec fn evidence_json(e: EvidenceModel) -> Json {
    Json::Object(seq![
        ("attempted"@, Json::Bool(e.attempted)),
        ("baseline_request_at_unix_ms"@, json_opt_u64(e.baseline_request_at_unix_ms)),
        ("failed_request_at_unix_ms"@, json_opt_u64(e.failed_request_at_unix_ms)),
        ("schema_differences"@, Json::Array(e.schema_differences.map_values(|d: DifferenceModel| difference_json(d)))),
        ("status"@, Json::Str(e.status)),
        ("supports_lossless_repair"@, Json::Bool(e.supports_lossless_repair)),
    ])
}

fn json_string(s: &str) -> (res: JsonValue)
    ensures
        res.model() == Json::Str(s@),
{
    JsonValue::String(crate::text::string_of(chars_of(s).as_slice()))
}

fn json_opt_u64_exec(n: Option<u64>) -> (res: JsonValue)
    ensures
        res.model() == json_opt_u64(n),
{
    match n {
        Some(v) => JsonValue::Number(JsonNumber { text: crate::text::string_of(crate::text::u64_text(v).as_slice()), unsigned: Some(v) }),
        None => JsonValue::Null,
    }
}

fn entry(key: &str, value: JsonValue) -> (res: (String, JsonValue))
    ensures
        res.0@ == key@,
        res.1 == value,
{
    (crate::text::string_of(chars_of(key).as_slice()), value)
}

impl SchemaDifference {
    pub fn as_json(&self) -> (res: JsonValue)
        ensures
            res.model() == difference_json(self.model()),
    {
        let mut entries: Vec<(String, JsonValue)> = Vec::new();
        entries.push(entry("classification", json_string(self.classification.as_str())));
        entries.push(entry("failing_type", json_string(self.failing_type.as_str())));
        entries.push(entry("path", json_string(self.path.as_str())));
        entries.push(entry("successful_type", json_string(self.successful_type.as_str())));
        proof {
            lemma_entry_models(entries@);
            assert(entry_models(entries@) =~= seq![
                ("classification"@, Json::Str(self.classification@)),
                ("failing_type"@, Json::Str(self.failing_type@)),
                ("path"@, Json::Str(self.path@)),
                ("successful_type"@, Json::Str(self.successful_type@)),
            ]);
        }
        JsonValue::Object(entries)
    }
}

impl PassiveEvidence {
    /// The evidence as a JSON object.
    pub fn as_json(&self) -> (res: JsonValue)
        ensures
            res.model() == evidence_json(self.model()),
    {
        let ghost dm = difference_models(self.schema_differences@);
        let mut items: Vec<JsonValue> = Vec::new();
        let mut i: usize = 0;
        while i < self.schema_differences.len()
            invariant
                i <= self.schema_differences@.len(),
                dm == difference_models(self.schema_differences@),
                models(items@) == dm.take(i as int).map_values(|d: DifferenceModel| difference_json(d)),
            decreases self.schema_differences.len() - i,
        {
            let item = self.schema_differences[i].as_json();
            proof { lemma_models_push(items@, item); }
            items.push(item);
            assert(models(items@) =~= dm.take(i + 1).map_values(|d: DifferenceModel| difference_json(d)));
            i = i + 1;
        }
        assert(dm.take(dm.len() as int) =~= dm);
        let mut entries: Vec<(String, JsonValue)> = Vec::new();
        entries.push(entry("attempted", JsonValue::Bool(self.attempted)));
        entries.push(entry("baseline_request_at_unix_ms", json_opt_u64_exec(self.baseline_request_at_unix_ms)));
        entries.push(entry("failed_request_at_unix_ms", json_opt_u64_exec(self.failed_request_at_unix_ms)));
        let ghost im = models(items@);
        entries.push(entry("schema_differences", JsonValue::Array(items)));
        entries.push(entry("status", json_string(self.status.as_str())));
        entries.push(entry("supports_lossless_repair", JsonValue::Bool(self.supports_lossless_repair)));
        proof {
            lemma_entry_models(entries@);
            assert(entry_models(entries@) =~= seq![
                ("attempted"@, Json::Bool(self.attempted)),
                ("baseline_request_at_unix_ms"@, json_opt_u64(self.baseline_request_at_unix_ms)),
                ("failed_request_at_unix_ms"@, json_opt_u64(self.failed_request_at_unix_ms)),
                ("schema_differences"@, Json::Array(im)),
                ("status"@, Json::Str(self.status@)),
                ("supports_lossless_repair"@, Json::Bool(self.supports_lossless_repair)),
            ]);
        }
        JsonValue::Object(entries)
    }
}

} // verus!
