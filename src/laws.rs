//! Laws of loading, proved over `load_model` and `read_lines`, the exact
//! contracts of `load_str`.
use vstd::prelude::*;
use crate::params::{
    classify, convert, field_of, first_missing, lemma_read_lines_err, line_key, line_value,
    load_model, read_lines, ErrorModel, Field, LineModel, Progress, Schema, ValueModel,
};
use crate::text::{contains_char, lines_of};

verus! {

/// The line has a colon, and its key names the declared field `f`.
pub open spec fn names(line: Seq<char>, f: Field, schema: Schema) -> bool {
    contains_char(line, ':') && field_of(line_key(line), schema) == Some(f)
}

/// The line is read without error: it sets a field or carries an unknown key.
pub open spec fn is_good(line: Seq<char>, schema: Schema) -> bool {
    classify(line, schema) is Assign || classify(line, schema) is Unknown
}

pub open spec fn all_good(lines: Seq<Seq<char>>, schema: Schema) -> bool {
    forall|i: int| 0 <= i < lines.len() ==> is_good(#[trigger] lines[i], schema)
}

/// The value that the last line setting `f` gives it.
pub open spec fn last_assigned(lines: Seq<Seq<char>>, f: Field, schema: Schema) -> Option<ValueModel>
    decreases lines.len(),
{
    if lines.len() == 0 {
        None
    } else {
        match classify(lines.last(), schema) {
            LineModel::Assign(g, v) => if g == f {
                Some(v)
            } else {
                last_assigned(lines.drop_last(), f, schema)
            },
            _ => last_assigned(lines.drop_last(), f, schema),
        }
    }
}

/// The keys of the lines that name no declared field, in order.
pub open spec fn unknown_keys(lines: Seq<Seq<char>>, schema: Schema) -> Seq<Seq<char>>
    decreases lines.len(),
{
    if lines.len() == 0 {
        Seq::empty()
    } else {
        match classify(lines.last(), schema) {
            LineModel::Unknown(k) => unknown_keys(lines.drop_last(), schema).push(k),
            _ => unknown_keys(lines.drop_last(), schema),
        }
    }
}

/// The error that a line that is not good gives as line number `n`.
pub open spec fn line_error(line: Seq<char>, n: nat, schema: Schema) -> ErrorModel {
    match classify(line, schema) {
        LineModel::Mismatch(f, v) => ErrorModel::Mismatch(f, v),
        _ => ErrorModel::Malformed(n),
    }
}

proof fn lemma_read_good(lines: Seq<Seq<char>>, schema: Schema)
    requires
        all_good(lines, schema),
    ensures
        read_lines(lines, schema) is Ok,
        read_lines(lines, schema)->Ok_0.warnings == unknown_keys(lines, schema),
        forall|f: Field| #[trigger]
            read_lines(lines, schema)->Ok_0.params.get(f) == last_assigned(lines, f, schema),
    decreases lines.len(),
{
    if lines.len() > 0 {
        let prev = lines.drop_last();
        assert forall|i: int| 0 <= i < prev.len() implies is_good(#[trigger] prev[i], schema) by {
            assert(prev[i] == lines[i]);
        }
        lemma_read_good(prev, schema);
        assert(is_good(lines[lines.len() - 1], schema));
        assert forall|f: Field| #[trigger]
            read_lines(lines, schema)->Ok_0.params.get(f) == last_assigned(lines, f, schema) by {
            assert(read_lines(prev, schema)->Ok_0.params.get(f) == last_assigned(prev, f, schema));
        }
    }
}

proof fn lemma_last_assigned(lines: Seq<Seq<char>>, f: Field, schema: Schema, j: int)
    requires
        all_good(lines, schema),
        0 <= j < lines.len(),
        names(lines[j], f, schema),
        forall|k: int| j < k < lines.len() ==> !names(#[trigger] lines[k], f, schema),
    ensures
        convert(f, line_value(lines[j])) is Some,
        last_assigned(lines, f, schema) == convert(f, line_value(lines[j])),
    decreases lines.len(),
{
    assert(is_good(lines[j], schema));
    let last = lines.len() - 1;
    if j < last {
        let prev = lines.drop_last();
        assert(is_good(lines[last], schema));
        assert(!names(lines[last], f, schema));
        assert forall|i: int| 0 <= i < prev.len() implies is_good(#[trigger] prev[i], schema) by {
            assert(prev[i] == lines[i]);
        }
        assert forall|k: int| j < k < prev.len() implies !names(#[trigger] prev[k], f, schema) by {
            assert(prev[k] == lines[k]);
        }
        assert(prev[j] == lines[j]);
        lemma_last_assigned(prev, f, schema, j);
    }
}

proof fn lemma_last_assigned_none(lines: Seq<Seq<char>>, f: Field, schema: Schema)
    requires
        forall|k: int| 0 <= k < lines.len() ==> !names(#[trigger] lines[k], f, schema),
    ensures
        last_assigned(lines, f, schema) is None,
    decreases lines.len(),
{
    if lines.len() > 0 {
        let prev = lines.drop_last();
        assert(!names(lines[lines.len() - 1], f, schema));
        assert forall|k: int| 0 <= k < prev.len() implies !names(#[trigger] prev[k], f, schema) by {
            assert(prev[k] == lines[k]);
        }
        lemma_last_assigned_none(prev, f, schema);
    }
}

proof fn lemma_some_line_names(lines: Seq<Seq<char>>, f: Field, schema: Schema, j: int)
    requires
        all_good(lines, schema),
        0 <= j < lines.len(),
        names(lines[j], f, schema),
    ensures
        last_assigned(lines, f, schema) is Some,
    decreases lines.len(),
{
    let last = lines.len() - 1;
    if names(lines[last], f, schema) {
        assert forall|k: int| last < k < lines.len() implies !names(#[trigger] lines[k], f, schema) by {}
        lemma_last_assigned(lines, f, schema, last);
    } else {
        let prev = lines.drop_last();
        assert(is_good(lines[last], schema));
        assert forall|i: int| 0 <= i < prev.len() implies is_good(#[trigger] prev[i], schema) by {
            assert(prev[i] == lines[i]);
        }
        assert(prev[j] == lines[j]);
        lemma_some_line_names(prev, f, schema, j);
    }
}

proof fn lemma_first_bad(lines: Seq<Seq<char>>, schema: Schema, k: int)
    requires
        0 <= k < lines.len(),
        forall|i: int| 0 <= i < k ==> is_good(#[trigger] lines[i], schema),
        !is_good(lines[k], schema),
    ensures
        read_lines(lines, schema) == Err::<Progress, ErrorModel>(
            line_error(lines[k], (k + 1) as nat, schema),
        ),
{
    let before = lines.take(k);
    assert forall|i: int| 0 <= i < before.len() implies is_good(#[trigger] before[i], schema) by {
        assert(before[i] == lines[i]);
    }
    lemma_read_good(before, schema);
    let upto = lines.take(k + 1);
    assert(upto.drop_last() == before);
    assert(upto.last() == lines[k]);
    lemma_read_lines_err(lines, k + 1, schema);
}

/// Round trip: when every line of a file is read without error and each
/// declared field is named by exactly one line, with a non-empty temperature
/// list where temperatures are declared, loading succeeds, and each declared
/// field holds what the value on its line converts to.
pub proof fn law_round_trip(text: Seq<char>, schema: Schema)
    requires
        all_good(lines_of(text), schema),
        forall|f: Field|
            schema.declares(f) ==> exists|i: int|
                0 <= i < lines_of(text).len() && #[trigger] names(lines_of(text)[i], f, schema),
        forall|f: Field, i: int, j: int|
            0 <= i < lines_of(text).len() && 0 <= j < lines_of(text).len() && #[trigger] names(
                lines_of(text)[i],
                f,
                schema,
            ) && #[trigger] names(lines_of(text)[j], f, schema) ==> i == j,
        forall|i: int|
            0 <= i < lines_of(text).len() && names(#[trigger] lines_of(text)[i], Field::Temperature, schema)
                ==> convert(Field::Temperature, line_value(lines_of(text)[i])) != Some(
                ValueModel::List(Seq::empty()),
            ),
    ensures
        load_model(text, schema) is Ok,
        forall|f: Field, i: int|
            0 <= i < lines_of(text).len() && #[trigger] names(lines_of(text)[i], f, schema)
                ==> load_model(text, schema)->Ok_0.params.get(f) == convert(
                f,
                line_value(lines_of(text)[i]),
            ),
{
    let lines = lines_of(text);
    lemma_read_good(lines, schema);
    let p = read_lines(lines, schema)->Ok_0;
    assert forall|f: Field| schema.declares(f) implies p.params.get(f) is Some by {
        let i = choose|i: int| 0 <= i < lines.len() && names(#[trigger] lines[i], f, schema);
        lemma_some_line_names(lines, f, schema, i);
        assert(p.params.get(f) == last_assigned(lines, f, schema));
    }
    assert(schema.declares(Field::OutputFile) ==> p.params.get(Field::OutputFile) is Some);
    assert(schema.declares(Field::Lx) ==> p.params.get(Field::Lx) is Some);
    assert(schema.declares(Field::Ly) ==> p.params.get(Field::Ly) is Some);
    assert(schema.declares(Field::Length) ==> p.params.get(Field::Length) is Some);
    assert(schema.declares(Field::MonteCarloTrials) ==> p.params.get(Field::MonteCarloTrials) is Some);
    assert(schema.declares(Field::Temperature) ==> p.params.get(Field::Temperature) is Some);
    assert(schema.declares(Field::MyBool) ==> p.params.get(Field::MyBool) is Some);
    assert(first_missing(p.params, schema) is None);
    if schema.temperature {
        assert(schema.declares(Field::Temperature));
        let i = choose|i: int| 0 <= i < lines.len() && names(#[trigger] lines[i], Field::Temperature, schema);
        assert forall|k: int| i < k < lines.len() implies !names(#[trigger] lines[k], Field::Temperature, schema) by {}
        lemma_last_assigned(lines, Field::Temperature, schema, i);
        assert(p.params.get(Field::Temperature) == last_assigned(lines, Field::Temperature, schema));
    }
    assert(load_model(text, schema) == Ok::<Progress, ErrorModel>(p));
    assert forall|f: Field, i: int|
        0 <= i < lines.len() && #[trigger] names(lines[i], f, schema) implies p.params.get(f) == convert(
        f,
        line_value(lines[i]),
    ) by {
        assert forall|k: int| i < k < lines.len() implies !names(#[trigger] lines[k], f, schema) by {}
        lemma_last_assigned(lines, f, schema, i);
        assert(p.params.get(f) == last_assigned(lines, f, schema));
    }
}

/// Last write wins: when every line is read without error and line `j` is
/// the last that names `f`, reading the lines leaves `f` at what the value on
/// line `j` converts to, and so does a load that succeeds.
pub proof fn law_last_write_wins(text: Seq<char>, schema: Schema, f: Field, j: int)
    requires
        all_good(lines_of(text), schema),
        0 <= j < lines_of(text).len(),
        names(lines_of(text)[j], f, schema),
        forall|k: int| j < k < lines_of(text).len() ==> !#[trigger] names(lines_of(text)[k], f, schema),
    ensures
        convert(f, line_value(lines_of(text)[j])) is Some,
        read_lines(lines_of(text), schema) is Ok,
        read_lines(lines_of(text), schema)->Ok_0.params.get(f) == convert(f, line_value(lines_of(text)[j])),
        load_model(text, schema) is Ok ==> load_model(text, schema)->Ok_0.params.get(f) == convert(
            f,
            line_value(lines_of(text)[j]),
        ),
{
    let lines = lines_of(text);
    lemma_read_good(lines, schema);
    lemma_last_assigned(lines, f, schema, j);
    assert(read_lines(lines, schema)->Ok_0.params.get(f) == last_assigned(lines, f, schema));
}

/// A missing key: when every line is read without error and no line names
/// the declared field `f`, loading fails with `Missing` naming a declared field
/// that no line names, which is `f` when `f` is the only such field.
pub proof fn law_missing_field(text: Seq<char>, schema: Schema, f: Field)
    requires
        all_good(lines_of(text), schema),
        schema.declares(f),
        forall|k: int| 0 <= k < lines_of(text).len() ==> !#[trigger] names(lines_of(text)[k], f, schema),
    ensures
        load_model(text, schema) is Err,
        load_model(text, schema)->Err_0 is Missing,
        ({
            let g = load_model(text, schema)->Err_0->Missing_0;
            &&& schema.declares(g)
            &&& forall|k: int| 0 <= k < lines_of(text).len() ==> !#[trigger] names(lines_of(text)[k], g, schema)
            &&& (forall|h: Field|
                schema.declares(h) && h != f ==> exists|k: int|
                    0 <= k < lines_of(text).len() && #[trigger] names(lines_of(text)[k], h, schema)) ==> g == f
        }),
{
    let lines = lines_of(text);
    lemma_read_good(lines, schema);
    let p = read_lines(lines, schema)->Ok_0;
    lemma_last_assigned_none(lines, f, schema);
    assert(p.params.get(f) == last_assigned(lines, f, schema));
    assert(first_missing(p.params, schema) is Some);
    let g = first_missing(p.params, schema)->0;
    assert(schema.declares(g) && p.params.get(g) is None);
    assert(load_model(text, schema) == Err::<Progress, ErrorModel>(ErrorModel::Missing(g)));
    assert forall|k: int| 0 <= k < lines.len() implies !#[trigger] names(lines[k], g, schema) by {
        if names(lines[k], g, schema) {
            lemma_some_line_names(lines, g, schema, k);
            assert(p.params.get(g) == last_assigned(lines, g, schema));
        }
    }
}

/// An empty list: when every line is read without error, every declared
/// field is named by some line, temperatures are declared, and the value on
/// the last line that names them is empty, loading fails with `EmptyList`.
pub proof fn law_empty_list(text: Seq<char>, schema: Schema, j: int)
    requires
        all_good(lines_of(text), schema),
        forall|f: Field|
            schema.declares(f) ==> exists|i: int|
                0 <= i < lines_of(text).len() && #[trigger] names(lines_of(text)[i], f, schema),
        schema.temperature,
        0 <= j < lines_of(text).len(),
        names(lines_of(text)[j], Field::Temperature, schema),
        forall|k: int|
            j < k < lines_of(text).len() ==> !#[trigger] names(lines_of(text)[k], Field::Temperature, schema),
        line_value(lines_of(text)[j]).len() == 0,
    ensures
        load_model(text, schema) == Err::<Progress, ErrorModel>(ErrorModel::EmptyList(Field::Temperature)),
{
    let lines = lines_of(text);
    lemma_read_good(lines, schema);
    let p = read_lines(lines, schema)->Ok_0;
    assert forall|f: Field| schema.declares(f) implies p.params.get(f) is Some by {
        let i = choose|i: int| 0 <= i < lines.len() && #[trigger] names(lines[i], f, schema);
        lemma_some_line_names(lines, f, schema, i);
        assert(p.params.get(f) == last_assigned(lines, f, schema));
    }
    assert(schema.declares(Field::OutputFile) ==> p.params.get(Field::OutputFile) is Some);
    assert(schema.declares(Field::Lx) ==> p.params.get(Field::Lx) is Some);
    assert(schema.declares(Field::Ly) ==> p.params.get(Field::Ly) is Some);
    assert(schema.declares(Field::Length) ==> p.params.get(Field::Length) is Some);
    assert(schema.declares(Field::MonteCarloTrials) ==> p.params.get(Field::MonteCarloTrials) is Some);
    assert(schema.declares(Field::Temperature) ==> p.params.get(Field::Temperature) is Some);
    assert(schema.declares(Field::MyBool) ==> p.params.get(Field::MyBool) is Some);
    assert(first_missing(p.params, schema) is None);
    lemma_last_assigned(lines, Field::Temperature, schema, j);
    assert(p.params.get(Field::Temperature) == last_assigned(lines, Field::Temperature, schema));
    assert(crate::params::list_items(line_value(lines[j])) =~= Seq::<Seq<char>>::empty());
}

/// A line without a colon: when the lines before line `k` (counted from zero)
/// are read without error and line `k` has no colon, loading fails with
/// `Malformed` naming line `k + 1`.
pub proof fn law_malformed_line(text: Seq<char>, schema: Schema, k: int)
    requires
        0 <= k < lines_of(text).len(),
        forall|i: int| 0 <= i < k ==> is_good(#[trigger] lines_of(text)[i], schema),
        !contains_char(lines_of(text)[k], ':'),
    ensures
        load_model(text, schema) == Err::<Progress, ErrorModel>(ErrorModel::Malformed((k + 1) as nat)),
{
    lemma_first_bad(lines_of(text), schema, k);
}

/// A value of the wrong type: when the lines before line `k` are read without
/// error and line `k` names a declared field `f` whose type its value does not
/// convert to, loading fails with `Mismatch` naming `f` and that value.
pub proof fn law_type_mismatch(text: Seq<char>, schema: Schema, k: int, f: Field)
    requires
        0 <= k < lines_of(text).len(),
        forall|i: int| 0 <= i < k ==> is_good(#[trigger] lines_of(text)[i], schema),
        names(lines_of(text)[k], f, schema),
        convert(f, line_value(lines_of(text)[k])) is None,
    ensures
        load_model(text, schema) == Err::<Progress, ErrorModel>(
            ErrorModel::Mismatch(f, line_value(lines_of(text)[k])),
        ),
{
    lemma_first_bad(lines_of(text), schema, k);
}

/// Unknown keys: when every line is read without error, reading the lines
/// warns of exactly the keys that name no declared field, in order, and a
/// load that succeeds returns those warnings.
pub proof fn law_unknown_keys_warn(text: Seq<char>, schema: Schema)
    requires
        all_good(lines_of(text), schema),
    ensures
        read_lines(lines_of(text), schema) is Ok,
        read_lines(lines_of(text), schema)->Ok_0.warnings == unknown_keys(lines_of(text), schema),
        load_model(text, schema) is Ok ==> load_model(text, schema)->Ok_0.warnings == unknown_keys(
            lines_of(text),
            schema,
        ),
{
    lemma_read_good(lines_of(text), schema);
}

/// A line that names no declared field changes no field: adding one to the
/// end of a sequence of lines adds its key to the warnings and leaves the
/// fields as they were.
pub proof fn law_unknown_key_ignored(lines: Seq<Seq<char>>, line: Seq<char>, schema: Schema)
    requires
        classify(line, schema) is Unknown,
        read_lines(lines, schema) is Ok,
    ensures
        read_lines(lines.push(line), schema) == Ok::<Progress, ErrorModel>(
            Progress {
                params: read_lines(lines, schema)->Ok_0.params,
                warnings: read_lines(lines, schema)->Ok_0.warnings.push(line_key(line)),
            },
        ),
{
    assert(lines.push(line).drop_last() == lines);
}

} // verus!
