//! Properties that pin down what single operations are for: the year
//! bounds of a filter, the field weights of ranking, the sort keys a request
//! names, the text a stored document is searched in, and the errors of a
//! schema's `required` list.

use vstd::prelude::*;
use crate::catalog::Movie;
use crate::filter::{eq_ignore_ascii_case, matches_filter, SearchFilter};
use crate::json::{bool_text, join_spaced, json_parts, member, parts_list, parts_members, searchable_text, Json};
use crate::text::{all_ascii, lowercase};
use crate::matching::{contains, find, lemma_find_from, occurs_at, MatchKind};
use crate::rank::{field_match, parse_sort_key, score, SortField, SortKey};
use crate::validate::{missing_errors, schema_errors};

verus! {

// ---------------------------------------------------------------------------
// Filtering by year.
// ---------------------------------------------------------------------------

/// Both bounds of a year filter are inclusive: with no genre condition, a
/// movie with a year passes exactly when its year is at least `gte` (when
/// given) and at most `lte` (when given); a movie without a year never
/// passes a year filter. So a movie from year `g` passes `gte: g` and
/// `lte: g`, one from `g - 1` fails `gte: g`, one from `g + 1` fails `lte: g`.
pub proof fn law_year_bounds_are_inclusive(m: Movie, f: SearchFilter)
    requires
        f.genre@.len() == 0,
        f.year is Some,
    ensures
        m.year is None ==> !matches_filter(m, Some(f)),
        m.year matches Some(y) ==> (matches_filter(m, Some(f)) <==> ((f.year->0.gte matches Some(g) ==> g <= y) && (
        f.year->0.lte matches Some(h) ==> y <= h))),
{
}

// ---------------------------------------------------------------------------
// Field weights of ranking.
// ---------------------------------------------------------------------------

/// How many typo matches a match counts.
pub open spec fn typo_count(k: MatchKind) -> nat {
    if k == MatchKind::Typo {
        1
    } else {
        0
    }
}

/// A query token scores the weight of the first field that matches it, in
/// the order title (3), genre (2), overview (1): a token the title matches
/// weighs 3 whatever the other fields hold; one the title misses and the
/// genre matches weighs 2 whatever the overview holds; one only the
/// overview matches weighs 1; one no field matches scores nothing.
pub proof fn law_token_weight_follows_field_order(m: Movie, t: Seq<char>, typo: bool)
    ensures
        field_match(m.title@, t, typo) matches Some(k) ==> score(m, seq![t], typo) == (1nat, 3nat, k.spec_quality(), typo_count(k)),
        field_match(m.title@, t, typo) is None ==> (field_match(m.genre@, t, typo) matches Some(k) ==> score(
            m,
            seq![t],
            typo,
        ) == (1nat, 2nat, k.spec_quality(), typo_count(k))),
        field_match(m.title@, t, typo) is None && field_match(m.genre@, t, typo) is None ==> (field_match(
            m.overview@,
            t,
            typo,
        ) matches Some(k) ==> score(m, seq![t], typo) == (1nat, 1nat, k.spec_quality(), typo_count(k))),
        field_match(m.title@, t, typo) is None && field_match(m.genre@, t, typo) is None && field_match(
            m.overview@,
            t,
            typo,
        ) is None ==> score(m, seq![t], typo) == (0nat, 0nat, 0nat, 0nat),
{
    let s = seq![t];
    assert(s.drop_last() =~= Seq::<Seq<char>>::empty());
    assert(s.last() == t);
    assert(score(m, s.drop_last(), typo) == (0nat, 0nat, 0nat, 0nat));
    assert(score(m, s, typo) == match crate::rank::token_match(m, t, typo) {
        Some((w, k)) => (1nat, w, k.spec_quality(), typo_count(k)),
        None => (0nat, 0nat, 0nat, 0nat),
    });
}

// ---------------------------------------------------------------------------
// Sort keys.
// ---------------------------------------------------------------------------

/// The position of the first `:` in a field name followed by `:` and a
/// direction is the length of the name.
proof fn lemma_colon_after(name: Seq<char>, dir: Seq<char>)
    requires
        forall|i: int| 0 <= i < name.len() ==> name[i] != ':',
    ensures
        find(name + seq![':'] + dir, seq![':']) == Some(name.len() as int),
        (name + seq![':'] + dir).take(name.len() as int) == name,
        (name + seq![':'] + dir).skip(name.len() as int + 1) == dir,
{
    let raw = name + seq![':'] + dir;
    lemma_find_from(raw, seq![':'], 0);
    assert(raw.subrange(name.len() as int, name.len() as int + 1) =~= seq![':']);
    assert(occurs_at(raw, seq![':'], name.len() as int));
    assert forall|m: int| 0 <= m < name.len() implies !occurs_at(raw, seq![':'], m) by {
        assert(raw.subrange(m, m + 1)[0] == name[m]);
    }
    assert(raw.take(name.len() as int) =~= name);
    assert(raw.skip(name.len() as int + 1) =~= dir);
}

/// A name without `:` is itself the field of the sort request.
proof fn lemma_no_colon(name: Seq<char>)
    requires
        forall|i: int| 0 <= i < name.len() ==> name[i] != ':',
    ensures
        find(name, seq![':']) is None,
{
    lemma_find_from(name, seq![':'], 0);
    if find(name, seq![':']) is Some {
        let k = find(name, seq![':'])->0;
        assert(name.subrange(k, k + 1)[0] == name[k]);
    }
}

/// The sort requests `id`, `title` and `year`, alone or followed by `:` and
/// a direction, sort by that field, descending exactly when the direction
/// is `desc` in any ASCII case (ascending without a direction); any other
/// name sorts by nothing.
pub proof fn law_sort_requests_name_their_field(dir: Seq<char>)
    ensures
        parse_sort_key(seq!['i', 'd']) == (SortKey { field: SortField::Id, descending: false }),
        parse_sort_key(seq!['t', 'i', 't', 'l', 'e']) == (SortKey { field: SortField::Title, descending: false }),
        parse_sort_key(seq!['y', 'e', 'a', 'r']) == (SortKey { field: SortField::Year, descending: false }),
        parse_sort_key(seq!['i', 'd', ':'] + dir) == (SortKey {
            field: SortField::Id,
            descending: eq_ignore_ascii_case(dir, seq!['d', 'e', 's', 'c']),
        }),
        parse_sort_key(seq!['t', 'i', 't', 'l', 'e', ':'] + dir) == (SortKey {
            field: SortField::Title,
            descending: eq_ignore_ascii_case(dir, seq!['d', 'e', 's', 'c']),
        }),
        parse_sort_key(seq!['y', 'e', 'a', 'r', ':'] + dir) == (SortKey {
            field: SortField::Year,
            descending: eq_ignore_ascii_case(dir, seq!['d', 'e', 's', 'c']),
        }),
        parse_sort_key(seq!['i', 'd', ':', 'd', 'e', 's', 'c']).descending,
        !parse_sort_key(seq!['i', 'd', ':', 'a', 's', 'c']).descending,
{
    let id = seq!['i', 'd'];
    let title = seq!['t', 'i', 't', 'l', 'e'];
    let year = seq!['y', 'e', 'a', 'r'];
    lemma_no_colon(id);
    lemma_no_colon(title);
    lemma_no_colon(year);
    lemma_colon_after(id, dir);
    lemma_colon_after(title, dir);
    lemma_colon_after(year, dir);
    assert(seq!['i', 'd', ':'] + dir =~= id + seq![':'] + dir);
    assert(seq!['t', 'i', 't', 'l', 'e', ':'] + dir =~= title + seq![':'] + dir);
    assert(seq!['y', 'e', 'a', 'r', ':'] + dir =~= year + seq![':'] + dir);
    let desc = seq!['d', 'e', 's', 'c'];
    let asc = seq!['a', 's', 'c'];
    lemma_colon_after(id, desc);
    lemma_colon_after(id, asc);
    assert(seq!['i', 'd', ':', 'd', 'e', 's', 'c'] =~= id + seq![':'] + desc);
    assert(seq!['i', 'd', ':', 'a', 's', 'c'] =~= id + seq![':'] + asc);
    assert(eq_ignore_ascii_case(desc, desc));
}

// ---------------------------------------------------------------------------
// The `required` list of a schema.
// ---------------------------------------------------------------------------

/// The error for a required field `f` that the document lacks.
pub open spec fn missing_field_error(f: Seq<char>) -> Seq<char> {
    "missing required field '"@ + f + "'"@
}

/// `e` is the error for some field that `required` lists and `doc` lacks.
pub open spec fn names_absent_field(required: Seq<Json>, doc: Seq<(Seq<char>, Json)>, e: Seq<char>) -> bool {
    exists|g: Seq<char>| #[trigger] missing_field_error(g) == e && member(doc, g) is None && required.contains(Json::Str(g))
}

/// How many entries of `required` name a field that `doc` lacks.
pub open spec fn count_absent(required: Seq<Json>, doc: Seq<(Seq<char>, Json)>) -> nat
    decreases required.len(),
{
    if required.len() == 0 {
        0
    } else {
        count_absent(required.drop_first(), doc) + match required[0] {
            Json::Str(f) => if member(doc, f) is None {
                1nat
            } else {
                0nat
            },
            _ => 0nat,
        }
    }
}

proof fn lemma_missing_errors(required: Seq<Json>, doc: Seq<(Seq<char>, Json)>, f: Seq<char>)
    ensures
        (exists|i: int| 0 <= i < required.len() && required[i] == Json::Str(f)) && member(doc, f) is None
            ==> missing_errors(required, doc).contains(missing_field_error(f)),
        forall|k: int|
            0 <= k < missing_errors(required, doc).len() ==> names_absent_field(
                required,
                doc,
                #[trigger] missing_errors(required, doc)[k],
            ),
        missing_errors(required, doc).len() == count_absent(required, doc),
    decreases required.len(),
{
    if required.len() > 0 {
        let p = required.drop_last();
        lemma_missing_errors(p, doc, f);
        lemma_count_absent_last(required, doc);
        let e = missing_errors(p, doc);
        let full = missing_errors(required, doc);
        if exists|i: int| 0 <= i < required.len() && required[i] == Json::Str(f) {
            if member(doc, f) is None {
                let i = choose|i: int| 0 <= i < required.len() && required[i] == Json::Str(f);
                if i < p.len() {
                    assert(p[i] == required[i]);
                    let k = choose|k: int| 0 <= k < e.len() && e[k] == missing_field_error(f);
                    assert(full[k] == e[k]);
                } else {
                    assert(required.last() == Json::Str(f));
                    assert(full[e.len() as int] == missing_field_error(f));
                }
            }
        }
        assert forall|k: int| 0 <= k < full.len() implies names_absent_field(required, doc, #[trigger] full[k]) by {
            if k < e.len() {
                assert(full[k] == e[k]);
                assert(names_absent_field(p, doc, e[k]));
                let g = choose|g: Seq<char>|
                    #[trigger] missing_field_error(g) == e[k] && member(doc, g) is None && p.contains(Json::Str(g));
                let j = choose|j: int| 0 <= j < p.len() && p[j] == Json::Str(g);
                assert(required[j] == p[j]);
            } else {
                let g = required.last()->Str_0;
                assert(required[required.len() - 1] == required.last());
                assert(missing_field_error(g) == full[k]);
                assert(required.contains(Json::Str(g)));
            }
        }
    }
}

/// Counting from the front and from the back agree.
proof fn lemma_count_absent_last(required: Seq<Json>, doc: Seq<(Seq<char>, Json)>)
    requires
        required.len() > 0,
    ensures
        count_absent(required, doc) == count_absent(required.drop_last(), doc) + match required.last() {
            Json::Str(f) => if member(doc, f) is None {
                1nat
            } else {
                0nat
            },
            _ => 0nat,
        },
    decreases required.len(),
{
    if required.len() > 1 {
        let t = required.drop_first();
        lemma_count_absent_last(t, doc);
        assert(t.drop_last() =~= required.drop_last().drop_first());
        assert(t.last() == required.last());
        assert(required.drop_last()[0] == required[0]);
    } else {
        assert(required.drop_last() =~= Seq::<Json>::empty());
        assert(required.drop_first() =~= Seq::<Json>::empty());
        assert(required[0] == required.last());
    }
}

/// Checking an object document against a schema with only a `required`
/// list reports one "missing required field" error for each listed name the
/// document lacks, and no other error: every absent listed name is reported,
/// each error names an absent listed field, and there are as many errors as
/// listed names absent from the document.
pub proof fn law_every_missing_required_field_is_reported(
    required: Seq<Json>,
    doc: Seq<(Seq<char>, Json)>,
    f: Seq<char>,
)
    ensures
        ({
            let errors = schema_errors(Json::Object(seq![("required"@, Json::Array(required))]), Json::Object(doc));
            &&& (exists|i: int| 0 <= i < required.len() && required[i] == Json::Str(f)) && member(doc, f) is None
                ==> errors.contains(missing_field_error(f))
            &&& forall|k: int| 0 <= k < errors.len() ==> names_absent_field(required, doc, #[trigger] errors[k])
            &&& errors.len() == count_absent(required, doc)
        }),
{
    reveal_strlit("required");
    reveal_strlit("type");
    reveal_strlit("properties");
    let schema = Json::Object(seq![("required"@, Json::Array(required))]);
    let pairs = seq![("required"@, Json::Array(required))];
    assert(pairs.drop_first() =~= Seq::<(Seq<char>, Json)>::empty());
    assert("required"@ != "type"@) by {
        assert("required"@.len() != "type"@.len());
    }
    assert("required"@ != "properties"@) by {
        assert("required"@.len() != "properties"@.len());
    }
    assert(member(pairs.drop_first(), "type"@) is None);
    assert(member(pairs.drop_first(), "properties"@) is None);
    assert(pairs[0].0 == "required"@);
    assert(member(pairs, "type"@) is None);
    assert(member(pairs, "properties"@) is None);
    assert(crate::validate::field(schema, "type"@) is None);
    assert(crate::validate::field(schema, "properties"@) is None);
    assert(crate::validate::field(schema, "required"@) == Some(Json::Array(required)));
    lemma_missing_errors(required, doc, f);
    let errors = schema_errors(schema, Json::Object(doc));
    assert(errors =~= missing_errors(required, doc));
}

// ---------------------------------------------------------------------------
// The searchable text of a stored document.
// ---------------------------------------------------------------------------

/// `s` is the text of a string, number or boolean anywhere inside `j`:
/// `j` itself, an element of an array, or a member value of an object, at
/// any depth.
pub open spec fn holds_text(j: Json, s: Seq<char>) -> bool
    decreases j, 1nat,
{
    match j {
        Json::Null => false,
        Json::Bool(b) => bool_text(b) == s,
        Json::Number(t, _) => t == s,
        Json::Str(x) => x == s,
        Json::Array(a) => list_holds_text(a, s),
        Json::Object(m) => members_hold_text(m, s),
    }
}

/// Some element of `a` holds `s`.
pub open spec fn list_holds_text(a: Seq<Json>, s: Seq<char>) -> bool
    decreases a, 0nat,
{
    if a.len() == 0 {
        false
    } else {
        list_holds_text(a.drop_last(), s) || holds_text(a.last(), s)
    }
}

/// Some member value of `m` holds `s`.
pub open spec fn members_hold_text(m: Seq<(Seq<char>, Json)>, s: Seq<char>) -> bool
    decreases m, 0nat,
{
    if m.len() == 0 {
        false
    } else {
        members_hold_text(m.drop_last(), s) || holds_text(m.last().1, s)
    }
}

proof fn lemma_parts_hold(j: Json, s: Seq<char>)
    requires
        holds_text(j, s),
    ensures
        json_parts(j).contains(s),
    decreases j, 1nat,
{
    match j {
        Json::Null => {},
        Json::Bool(b) => {
            assert(json_parts(j)[0] == s);
        },
        Json::Number(t, _) => {
            assert(json_parts(j)[0] == s);
        },
        Json::Str(x) => {
            assert(json_parts(j)[0] == s);
        },
        Json::Array(a) => {
            lemma_parts_list_hold(a, s);
        },
        Json::Object(m) => {
            lemma_parts_members_hold(m, s);
        },
    }
}

proof fn lemma_parts_list_hold(a: Seq<Json>, s: Seq<char>)
    requires
        list_holds_text(a, s),
    ensures
        parts_list(a).contains(s),
    decreases a, 0nat,
{
    if a.len() > 0 {
        let p = a.drop_last();
        if list_holds_text(p, s) {
            lemma_parts_list_hold(p, s);
            let k = choose|k: int| 0 <= k < parts_list(p).len() && parts_list(p)[k] == s;
            assert(parts_list(a)[k] == s);
        } else {
            lemma_parts_hold(a.last(), s);
            let q = json_parts(a.last());
            let k = choose|k: int| 0 <= k < q.len() && q[k] == s;
            assert(parts_list(a)[parts_list(p).len() + k] == s);
        }
    }
}

proof fn lemma_parts_members_hold(m: Seq<(Seq<char>, Json)>, s: Seq<char>)
    requires
        members_hold_text(m, s),
    ensures
        parts_members(m).contains(s),
    decreases m, 0nat,
{
    if m.len() > 0 {
        let p = m.drop_last();
        if members_hold_text(p, s) {
            lemma_parts_members_hold(p, s);
            let k = choose|k: int| 0 <= k < parts_members(p).len() && parts_members(p)[k] == s;
            assert(parts_members(m)[k] == s);
        } else {
            lemma_parts_hold(m.last().1, s);
            let q = json_parts(m.last().1);
            let k = choose|k: int| 0 <= k < q.len() && q[k] == s;
            assert(parts_members(m)[parts_members(p).len() + k] == s);
        }
    }
}

/// An element of a list, or a member value of an object, holds every text
/// that it holds itself.
pub proof fn lemma_holds_inside(a: Seq<Json>, m: Seq<(Seq<char>, Json)>, i: int, s: Seq<char>)
    ensures
        0 <= i < a.len() && holds_text(a[i], s) ==> list_holds_text(a, s),
        0 <= i < m.len() && holds_text(m[i].1, s) ==> members_hold_text(m, s),
    decreases a.len() + m.len(),
{
    if 0 <= i < a.len() && holds_text(a[i], s) && i < a.len() - 1 {
        assert(a.drop_last()[i] == a[i]);
        lemma_holds_inside(a.drop_last(), seq![], i, s);
    }
    if 0 <= i < m.len() && holds_text(m[i].1, s) && i < m.len() - 1 {
        assert(m.drop_last()[i] == m[i]);
        lemma_holds_inside(seq![], m.drop_last(), i, s);
    }
}

/// Each of the joined texts occurs in the joined text.
proof fn lemma_join_holds(parts: Seq<Seq<char>>, k: int)
    requires
        0 <= k < parts.len(),
    ensures
        exists|i: int| #[trigger] occurs_at(join_spaced(parts), parts[k], i),
    decreases parts.len(),
{
    let j = join_spaced(parts);
    if parts.len() == 1 {
        assert(j.subrange(0, parts[0].len() as int) =~= parts[0]);
        assert(occurs_at(j, parts[k], 0));
    } else {
        let p = parts.drop_last();
        let jp = join_spaced(p);
        if k < parts.len() - 1 {
            lemma_join_holds(p, k);
            let i = choose|i: int| #[trigger] occurs_at(jp, p[k], i);
            assert(p[k] == parts[k]);
            assert(j.subrange(i, i + parts[k].len()) =~= jp.subrange(i, i + parts[k].len()));
            assert(occurs_at(j, parts[k], i));
        } else {
            let st: int = jp.len() as int + 1;
            assert(j.subrange(st, st + parts.last().len()) =~= parts.last());
            assert(parts[k] == parts.last());
            assert(occurs_at(j, parts[k], st));
        }
    }
}

/// Every string, number and boolean inside a stored document, array
/// elements and nested members included, is one of the texts the document
/// is searched in; where the document's text is ASCII, its lowercase form
/// occurs in the searchable text, so a query token it contains finds the
/// document.
pub proof fn law_searchable_text_holds_every_value(j: Json, s: Seq<char>)
    requires
        holds_text(j, s),
    ensures
        json_parts(j).contains(s),
        all_ascii(join_spaced(json_parts(j))) ==> contains(searchable_text(j), lowercase(s)),
{
    lemma_parts_hold(j, s);
    let parts = json_parts(j);
    let k = choose|k: int| 0 <= k < parts.len() && parts[k] == s;
    lemma_join_holds(parts, k);
    let joined = join_spaced(parts);
    if all_ascii(joined) {
        let i = choose|i: int| #[trigger] occurs_at(joined, parts[k], i);
        let low = searchable_text(j);
        assert(all_ascii(s)) by {
            assert forall|x: int| 0 <= x < s.len() implies (#[trigger] s[x] as u32) < 128 by {
                assert(s[x] == joined.subrange(i, i + s.len())[x]);
                assert(joined[i + x] == s[x]);
            }
        }
        let ls = lowercase(s);
        assert(low.subrange(i, i + s.len()) =~= ls) by {
            assert forall|x: int| 0 <= x < s.len() implies low.subrange(i, i + s.len())[x] == ls[x] by {
                assert(joined[i + x] == s[x]);
            }
        }
        assert(occurs_at(low, ls, i));
        lemma_find_from(low, ls, 0);
    }
}

/// A string inside an array that a document member holds is searched:
/// it is one of the document's texts, and (for ASCII text) its lowercase
/// form occurs in the searchable text.
pub proof fn law_array_values_are_searched(m: Seq<(Seq<char>, Json)>, i: int, a: Seq<Json>, k: int, s: Seq<char>)
    requires
        0 <= i < m.len(),
        m[i].1 == Json::Array(a),
        0 <= k < a.len(),
        a[k] == Json::Str(s),
    ensures
        json_parts(Json::Object(m)).contains(s),
        all_ascii(join_spaced(json_parts(Json::Object(m)))) ==> contains(searchable_text(Json::Object(m)), lowercase(s)),
{
    lemma_holds_inside(a, seq![], k, s);
    assert(holds_text(m[i].1, s));
    lemma_holds_inside(seq![], m, i, s);
    law_searchable_text_holds_every_value(Json::Object(m), s);
}

} // verus!
