//! The parameter set, the schema of recognised keys, and loading a parameter
//! file's text into a parameter set.
use vstd::prelude::*;
use crate::number::{bool_of, is_float_literal, usize_of};
use crate::number::{is_float_text, parse_bool, parse_usize};
use crate::text::{
    chars_of, contains_char, find_char, first_index, lemma_first_at_unique, lemma_first_index, lines_of,
    span_eq, span_string, split, split_spans, trim, trim_span,
};

verus! {

/// A field of a parameter set, named in a parameter file by its key.
#[derive(Clone, Copy, Debug, PartialEq, Eq, Structural)]
pub enum Field {
    OutputFile,
    Lx,
    Ly,
    Length,
    MonteCarloTrials,
    Temperature,
    MyBool,
}

impl Field {
    /// The key that names this field in a parameter file.
    pub open spec fn spec_key(self) -> Seq<char> {
        match self {
            Field::OutputFile => "outputfile"@,
            Field::Lx => "Lx"@,
            Field::Ly => "Ly"@,
            Field::Length => "length"@,
            Field::MonteCarloTrials => "monte_carlo_trials"@,
            Field::Temperature => "temperature"@,
            Field::MyBool => "my_bool"@,
        }
    }

    pub fn key(&self) -> (r: &'static str)
        ensures
            r@ == self.spec_key(),
    {
        match self {
            Field::OutputFile => "outputfile",
            Field::Lx => "Lx",
            Field::Ly => "Ly",
            Field::Length => "length",
            Field::MonteCarloTrials => "monte_carlo_trials",
            Field::Temperature => "temperature",
            Field::MyBool => "my_bool",
        }
    }
}

/// Which fields a kind of parameter file declares. A declared field's key is
/// recognised, and the field is required.
#[derive(Clone, Copy, Debug, PartialEq, Eq, Structural)]
pub struct Schema {
    pub output_file: bool,
    pub lx: bool,
    pub ly: bool,
    pub length: bool,
    pub monte_carlo_trials: bool,
    pub temperature: bool,
    pub my_bool: bool,
}

impl Schema {
    pub open spec fn declares(self, f: Field) -> bool {
        match f {
            Field::OutputFile => self.output_file,
            Field::Lx => self.lx,
            Field::Ly => self.ly,
            Field::Length => self.length,
            Field::MonteCarloTrials => self.monte_carlo_trials,
            Field::Temperature => self.temperature,
            Field::MyBool => self.my_bool,
        }
    }

    /// A two-dimensional run: `outputfile`, `Lx`, `Ly`, `monte_carlo_trials`
    /// and `temperature`.
    pub fn lattice() -> (r: Schema)
        ensures
            r == (Schema {
                output_file: true,
                lx: true,
                ly: true,
                length: false,
                monte_carlo_trials: true,
                temperature: true,
                my_bool: false,
            }),
    {
        Schema {
            output_file: true,
            lx: true,
            ly: true,
            length: false,
            monte_carlo_trials: true,
            temperature: true,
            my_bool: false,
        }
    }

    /// A one-dimensional run: `outputfile`, `length`, `monte_carlo_trials` and
    /// `temperature`.
    pub fn chain() -> (r: Schema)
        ensures
            r == (Schema {
                output_file: true,
                lx: false,
                ly: false,
                length: true,
                monte_carlo_trials: true,
                temperature: true,
                my_bool: false,
            }),
    {
        Schema {
            output_file: true,
            lx: false,
            ly: false,
            length: true,
            monte_carlo_trials: true,
            temperature: true,
            my_bool: false,
        }
    }

    /// The smallest run: `outputfile`, `Lx` and `my_bool`.
    pub fn flagged() -> (r: Schema)
        ensures
            r == (Schema {
                output_file: true,
                lx: true,
                ly: false,
                length: false,
                monte_carlo_trials: false,
                temperature: false,
                my_bool: true,
            }),
    {
        Schema {
            output_file: true,
            lx: true,
            ly: false,
            length: false,
            monte_carlo_trials: false,
            temperature: false,
            my_bool: true,
        }
    }
}

/// The field that `key` names under `schema`, if it names a declared one.
pub open spec fn field_of(key: Seq<char>, schema: Schema) -> Option<Field> {
    if schema.output_file && key == Field::OutputFile.spec_key() {
        Some(Field::OutputFile)
    } else if schema.lx && key == Field::Lx.spec_key() {
        Some(Field::Lx)
    } else if schema.ly && key == Field::Ly.spec_key() {
        Some(Field::Ly)
    } else if schema.length && key == Field::Length.spec_key() {
        Some(Field::Length)
    } else if schema.monte_carlo_trials && key == Field::MonteCarloTrials.spec_key() {
        Some(Field::MonteCarloTrials)
    } else if schema.temperature && key == Field::Temperature.spec_key() {
        Some(Field::Temperature)
    } else if schema.my_bool && key == Field::MyBool.spec_key() {
        Some(Field::MyBool)
    } else {
        None
    }
}

/// The value of a field, as a mathematical object.
pub enum ValueModel {
    Text(Seq<char>),
    Count(nat),
    Flag(bool),
    List(Seq<Seq<char>>),
}

/// The trimmed pieces of a list value between commas; none for an empty value.
pub open spec fn list_items(v: Seq<char>) -> Seq<Seq<char>> {
    if v.len() == 0 {
        Seq::empty()
    } else {
        split(v, ',').map_values(|p: Seq<char>| trim(p))
    }
}

/// What the trimmed value text `v` converts to for field `f`, if it converts.
pub open spec fn convert(f: Field, v: Seq<char>) -> Option<ValueModel> {
    match f {
        Field::OutputFile => Some(ValueModel::Text(v)),
        Field::Temperature => if forall|i: int|
            0 <= i < list_items(v).len() ==> is_float_literal(#[trigger] list_items(v)[i]) {
            Some(ValueModel::List(list_items(v)))
        } else {
            None
        },
        Field::MyBool => match bool_of(v) {
            Some(b) => Some(ValueModel::Flag(b)),
            None => None,
        },
        _ => match usize_of(v) {
            Some(n) => Some(ValueModel::Count(n)),
            None => None,
        },
    }
}

/// What one line of a parameter file says, whatever came before it.
pub enum LineModel {
    /// The line has no colon.
    Malformed,
    /// The key names a field, and the value does not convert to its type.
    Mismatch(Field, Seq<char>),
    /// The key names a field, and the value converts to this.
    Assign(Field, ValueModel),
    /// The key names no declared field.
    Unknown(Seq<char>),
}

pub open spec fn line_key(line: Seq<char>) -> Seq<char> {
    trim(line.take(first_index(line, ':')))
}

pub open spec fn line_value(line: Seq<char>) -> Seq<char> {
    trim(line.skip(first_index(line, ':') + 1))
}

/// A line splits at its first colon into a key and a value, both trimmed.
pub open spec fn classify(line: Seq<char>, schema: Schema) -> LineModel {
    if !contains_char(line, ':') {
        LineModel::Malformed
    } else {
        match field_of(line_key(line), schema) {
            None => LineModel::Unknown(line_key(line)),
            Some(f) => match convert(f, line_value(line)) {
                None => LineModel::Mismatch(f, line_value(line)),
                Some(v) => LineModel::Assign(f, v),
            },
        }
    }
}

/// A parameter set as mathematical values: each field unset or set.
pub struct ParamsModel {
    pub output_file_name: Option<ValueModel>,
    pub lx: Option<ValueModel>,
    pub ly: Option<ValueModel>,
    pub length: Option<ValueModel>,
    pub monte_carlo_trials: Option<ValueModel>,
    pub temperature: Option<ValueModel>,
    pub my_bool: Option<ValueModel>,
}

impl ParamsModel {
    pub open spec fn empty() -> ParamsModel {
        ParamsModel {
            output_file_name: None,
            lx: None,
            ly: None,
            length: None,
            monte_carlo_trials: None,
            temperature: None,
            my_bool: None,
        }
    }

    pub open spec fn get(self, f: Field) -> Option<ValueModel> {
        match f {
            Field::OutputFile => self.output_file_name,
            Field::Lx => self.lx,
            Field::Ly => self.ly,
            Field::Length => self.length,
            Field::MonteCarloTrials => self.monte_carlo_trials,
            Field::Temperature => self.temperature,
            Field::MyBool => self.my_bool,
        }
    }

    pub open spec fn assign(self, f: Field, v: ValueModel) -> ParamsModel {
        match f {
            Field::OutputFile => ParamsModel { output_file_name: Some(v), ..self },
            Field::Lx => ParamsModel { lx: Some(v), ..self },
            Field::Ly => ParamsModel { ly: Some(v), ..self },
            Field::Length => ParamsModel { length: Some(v), ..self },
            Field::MonteCarloTrials => ParamsModel { monte_carlo_trials: Some(v), ..self },
            Field::Temperature => ParamsModel { temperature: Some(v), ..self },
            Field::MyBool => ParamsModel { my_bool: Some(v), ..self },
        }
    }
}

/// What has been read of a parameter file so far: the fields set, and the
/// unrecognised keys in the order met.
pub struct Progress {
    pub params: ParamsModel,
    pub warnings: Seq<Seq<char>>,
}

/// A reason why a parameter file cannot be loaded.
pub enum ErrorModel {
    Io(Seq<char>),
    Malformed(nat),
    Mismatch(Field, Seq<char>),
    Missing(Field),
    EmptyList(Field),
}

/// Reading line number `n` (counted from one) after `p`.
pub open spec fn step(p: Progress, line: Seq<char>, n: nat, schema: Schema) -> Result<
    Progress,
    ErrorModel,
> {
    match classify(line, schema) {
        LineModel::Malformed => Err(ErrorModel::Malformed(n)),
        LineModel::Mismatch(f, v) => Err(ErrorModel::Mismatch(f, v)),
        LineModel::Assign(f, v) => Ok(Progress { params: p.params.assign(f, v), ..p }),
        LineModel::Unknown(k) => Ok(Progress { warnings: p.warnings.push(k), ..p }),
    }
}

/// Reading `lines` in order from an empty parameter set, stopping at the first
/// line that fails.
pub open spec fn read_lines(lines: Seq<Seq<char>>, schema: Schema) -> Result<Progress, ErrorModel>
    decreases lines.len(),
{
    if lines.len() == 0 {
        Ok(Progress { params: ParamsModel::empty(), warnings: Seq::empty() })
    } else {
        match read_lines(lines.drop_last(), schema) {
            Err(e) => Err(e),
            Ok(p) => step(p, lines.last(), lines.len(), schema),
        }
    }
}

/// The first declared field, in the order of `Field`, that `p` leaves unset.
pub open spec fn first_missing(p: ParamsModel, schema: Schema) -> Option<Field> {
    if schema.output_file && p.output_file_name is None {
        Some(Field::OutputFile)
    } else if schema.lx && p.lx is None {
        Some(Field::Lx)
    } else if schema.ly && p.ly is None {
        Some(Field::Ly)
    } else if schema.length && p.length is None {
        Some(Field::Length)
    } else if schema.monte_carlo_trials && p.monte_carlo_trials is None {
        Some(Field::MonteCarloTrials)
    } else if schema.temperature && p.temperature is None {
        Some(Field::Temperature)
    } else if schema.my_bool && p.my_bool is None {
        Some(Field::MyBool)
    } else {
        None
    }
}

/// The validation made once every line is read: each declared field set, and
/// a declared temperature list not empty.
pub open spec fn validate(p: Progress, schema: Schema) -> Result<Progress, ErrorModel> {
    match first_missing(p.params, schema) {
        Some(f) => Err(ErrorModel::Missing(f)),
        None => if schema.temperature && p.params.temperature == Some(
            ValueModel::List(Seq::empty()),
        ) {
            Err(ErrorModel::EmptyList(Field::Temperature))
        } else {
            Ok(p)
        },
    }
}

/// What loading the text `text` of a parameter file gives.
pub open spec fn load_model(text: Seq<char>, schema: Schema) -> Result<Progress, ErrorModel> {
    match read_lines(lines_of(text), schema) {
        Err(e) => Err(e),
        Ok(p) => validate(p, schema),
    }
}

/// The characters of each string of `v`.
pub open spec fn strings_view(v: Seq<String>) -> Seq<Seq<char>> {
    v.map_values(|s: String| s@)
}

/// The parameters read from a parameter file; a field is `None` until a line
/// sets it.
#[derive(Clone, Debug, PartialEq, Eq)]
pub struct ParameterSet {
    pub output_file_name: Option<String>,
    pub lx: Option<usize>,
    pub ly: Option<usize>,
    pub length: Option<usize>,
    pub monte_carlo_trials: Option<usize>,
    /// The temperatures as written, each a float literal.
    pub temperature: Option<Vec<String>>,
    pub my_bool: Option<bool>,
}

pub open spec fn count_model(o: Option<usize>) -> Option<ValueModel> {
    match o {
        Some(n) => Some(ValueModel::Count(n as nat)),
        None => None,
    }
}

impl View for ParameterSet {
    type V = ParamsModel;

    open spec fn view(&self) -> ParamsModel {
        ParamsModel {
            output_file_name: match self.output_file_name {
                Some(s) => Some(ValueModel::Text(s@)),
                None => None,
            },
            lx: count_model(self.lx),
            ly: count_model(self.ly),
            length: count_model(self.length),
            monte_carlo_trials: count_model(self.monte_carlo_trials),
            temperature: match self.temperature {
                Some(v) => Some(ValueModel::List(strings_view(v@))),
                None => None,
            },
            my_bool: match self.my_bool {
                Some(b) => Some(ValueModel::Flag(b)),
                None => None,
            },
        }
    }
}

impl ParameterSet {
    /// A parameter set with every field unset.
    pub fn new() -> (r: ParameterSet)
        ensures
            r@ == ParamsModel::empty(),
    {
        ParameterSet {
            output_file_name: None,
            lx: None,
            ly: None,
            length: None,
            monte_carlo_trials: None,
            temperature: None,
            my_bool: None,
        }
    }
}

/// Why a parameter file could not be loaded.
#[derive(Clone, Debug, PartialEq, Eq)]
pub enum ConfigError {
    /// The file could not be read, or the output could not be written.
    IoFailure { message: String },
    /// The line with this number (counted from one) has no colon.
    MalformedLine { line_number: usize },
    /// The value of a recognised key does not convert to its field's type.
    TypeMismatch { key: Field, value: String },
    /// A declared field is set by no line.
    MissingField { key: Field },
    /// A declared list field is set to an empty list.
    EmptyList { key: Field },
}

impl View for ConfigError {
    type V = ErrorModel;

    open spec fn view(&self) -> ErrorModel {
        match self {
            ConfigError::IoFailure { message } => ErrorModel::Io(message@),
            ConfigError::MalformedLine { line_number } => ErrorModel::Malformed(*line_number as nat),
            ConfigError::TypeMismatch { key, value } => ErrorModel::Mismatch(*key, value@),
            ConfigError::MissingField { key } => ErrorModel::Missing(*key),
            ConfigError::EmptyList { key } => ErrorModel::EmptyList(*key),
        }
    }
}

/// A loaded parameter set, with the unrecognised keys that were met, in order.
#[derive(Clone, Debug, PartialEq, Eq)]
pub struct Loaded {
    pub params: ParameterSet,
    pub warnings: Vec<String>,
}

impl View for Loaded {
    type V = Progress;

    open spec fn view(&self) -> Progress {
        Progress { params: self.params@, warnings: strings_view(self.warnings@) }
    }
}

/// The outcome of a load as mathematical values.
pub open spec fn outcome(r: Result<Loaded, ConfigError>) -> Result<Progress, ErrorModel> {
    match r {
        Ok(l) => Ok(l@),
        Err(e) => Err(e@),
    }
}

/// The declared field that the key `chars[lo..hi]` names, if any.
fn field_for(chars: &Vec<char>, lo: usize, hi: usize, schema: &Schema) -> (r: Option<Field>)
    requires
        lo <= hi <= chars.len(),
    ensures
        r == field_of(chars@.subrange(lo as int, hi as int), *schema),
{
    if schema.output_file && span_eq(chars, lo, hi, Field::OutputFile.key()) {
        Some(Field::OutputFile)
    } else if schema.lx && span_eq(chars, lo, hi, Field::Lx.key()) {
        Some(Field::Lx)
    } else if schema.ly && span_eq(chars, lo, hi, Field::Ly.key()) {
        Some(Field::Ly)
    } else if schema.length && span_eq(chars, lo, hi, Field::Length.key()) {
        Some(Field::Length)
    } else if schema.monte_carlo_trials && span_eq(chars, lo, hi, Field::MonteCarloTrials.key()) {
        Some(Field::MonteCarloTrials)
    } else if schema.temperature && span_eq(chars, lo, hi, Field::Temperature.key()) {
        Some(Field::Temperature)
    } else if schema.my_bool && span_eq(chars, lo, hi, Field::MyBool.key()) {
        Some(Field::MyBool)
    } else {
        None
    }
}

/// The items of the list value `chars[lo..hi]`, if each is a float literal.
fn read_list(text: &str, chars: &Vec<char>, lo: usize, hi: usize) -> (r: Option<Vec<String>>)
    requires
        chars@ == text@,
        lo <= hi <= chars.len(),
    ensures
        match convert(Field::Temperature, chars@.subrange(lo as int, hi as int)) {
            Some(ValueModel::List(items)) => r is Some && strings_view(r->0@) == items,
            _ => r is None,
        },
{
    let ghost v = chars@.subrange(lo as int, hi as int);
    let mut items: Vec<String> = Vec::new();
    if lo == hi {
        assert(strings_view(items@) =~= list_items(v));
        return Some(items);
    }
    let spans = split_spans(chars, lo, hi, ',');
    let ghost all = list_items(v);
    let mut k: usize = 0;
    while k < spans.len()
        invariant
            lo < hi <= chars.len(),
            chars@ == text@,
            v == chars@.subrange(lo as int, hi as int),
            all == list_items(v),
            k <= spans.len() == all.len(),
            forall|j: int|
                0 <= j < spans.len() ==> lo <= #[trigger] spans[j].0 <= spans[j].1 <= hi
                    && chars@.subrange(spans[j].0 as int, spans[j].1 as int) == split(v, ',')[j],
            strings_view(items@) == all.take(k as int),
            forall|j: int| 0 <= j < k ==> is_float_literal(#[trigger] all[j]),
        decreases spans.len() - k,
    {
        let (a, b) = trim_span(chars, spans[k].0, spans[k].1);
        assert(all[k as int] == trim(split(v, ',')[k as int]));
        if !is_float_text(chars, a, b) {
            return None;
        }
        let s = span_string(text, chars, a, b);
        let ghost before = items@;
        items.push(s);
        proof {
            assert(spans[k as int].0 <= spans[k as int].1);
            assert(s@ == all[k as int]);
            assert(strings_view(items@) =~= strings_view(before).push(s@));
            assert(all.take(k + 1) =~= all.take(k as int).push(all[k as int]));
        }
        k = k + 1;
    }
    assert(all.take(k as int) == all);
    Some(items)
}

/// Reads the line `chars[lo..hi]`, numbered `n`, into `params` and `warnings`.
fn read_line(
    text: &str,
    chars: &Vec<char>,
    lo: usize,
    hi: usize,
    n: usize,
    schema: &Schema,
    params: &mut ParameterSet,
    warnings: &mut Vec<String>,
) -> (r: Result<(), ConfigError>)
    requires
        chars@ == text@,
        lo <= hi <= chars.len(),
    ensures
        match step(
            Progress { params: old(params)@, warnings: strings_view(old(warnings)@) },
            chars@.subrange(lo as int, hi as int),
            n as nat,
            *schema,
        ) {
            Ok(p) => r is Ok && final(params)@ == p.params && strings_view(final(warnings)@)
                == p.warnings,
            Err(e) => match r {
                Err(err) => err@ == e,
                Ok(_) => false,
            },
        },
{
    let ghost line = chars@.subrange(lo as int, hi as int);
    let c = match find_char(chars, lo, hi, ':') {
        None => {
            return Err(ConfigError::MalformedLine { line_number: n });
        },
        Some(c) => c,
    };
    proof {
        assert(line[c - lo] == ':');
        lemma_first_index(line, ':');
        lemma_first_at_unique(line, ':', first_index(line, ':'), c - lo);
        assert(line.take(c - lo) == chars@.subrange(lo as int, c as int));
        assert(line.skip(c - lo + 1) == chars@.subrange(c + 1, hi as int));
    }
    let (klo, khi) = trim_span(chars, lo, c);
    let (vlo, vhi) = trim_span(chars, c + 1, hi);
    let ghost value = chars@.subrange(vlo as int, vhi as int);
    let f = match field_for(chars, klo, khi, schema) {
        None => {
            let key = span_string(text, chars, klo, khi);
            warnings.push(key);
            assert(strings_view(warnings@) =~= strings_view(old(warnings)@).push(line_key(line)));
            return Ok(());
        },
        Some(f) => f,
    };
    match f {
        Field::OutputFile => {
            params.output_file_name = Some(span_string(text, chars, vlo, vhi));
            Ok(())
        },
        Field::Temperature => match read_list(text, chars, vlo, vhi) {
            Some(items) => {
                params.temperature = Some(items);
                Ok(())
            },
            None => Err(ConfigError::TypeMismatch { key: f, value: span_string(text, chars, vlo, vhi) }),
        },
        Field::MyBool => match parse_bool(chars, vlo, vhi) {
            Some(b) => {
                params.my_bool = Some(b);
                Ok(())
            },
            None => Err(ConfigError::TypeMismatch { key: f, value: span_string(text, chars, vlo, vhi) }),
        },
        _ => match parse_usize(chars, vlo, vhi) {
            Some(x) => {
                match f {
                    Field::Lx => {
                        params.lx = Some(x);
                    },
                    Field::Ly => {
                        params.ly = Some(x);
                    },
                    Field::Length => {
                        params.length = Some(x);
                    },
                    _ => {
                        params.monte_carlo_trials = Some(x);
                    },
                }
                Ok(())
            },
            None => Err(ConfigError::TypeMismatch { key: f, value: span_string(text, chars, vlo, vhi) }),
        },
    }
}

/// Once reading a prefix of the lines fails, reading all of them fails alike.
pub proof fn lemma_read_lines_err(lines: Seq<Seq<char>>, k: int, schema: Schema)
    requires
        0 <= k <= lines.len(),
        read_lines(lines.take(k), schema) is Err,
    ensures
        read_lines(lines, schema) == read_lines(lines.take(k), schema),
    decreases lines.len() - k,
{
    if k < lines.len() {
        assert(lines.drop_last().take(k) == lines.take(k));
        lemma_read_lines_err(lines.drop_last(), k, schema);
        assert(lines.drop_last().take(k) == lines.take(k));
    } else {
        assert(lines.take(k) == lines);
    }
}

/// The first declared field that `p` leaves unset.
fn missing_field(p: &ParameterSet, schema: &Schema) -> (r: Option<Field>)
    ensures
        r == first_missing(p@, *schema),
{
    if schema.output_file && p.output_file_name.is_none() {
        Some(Field::OutputFile)
    } else if schema.lx && p.lx.is_none() {
        Some(Field::Lx)
    } else if schema.ly && p.ly.is_none() {
        Some(Field::Ly)
    } else if schema.length && p.length.is_none() {
        Some(Field::Length)
    } else if schema.monte_carlo_trials && p.monte_carlo_trials.is_none() {
        Some(Field::MonteCarloTrials)
    } else if schema.temperature && p.temperature.is_none() {
        Some(Field::Temperature)
    } else if schema.my_bool && p.my_bool.is_none() {
        Some(Field::MyBool)
    } else {
        None
    }
}

/// Loads the text of a parameter file under `schema`: each line is read in
/// order, the first that fails ends the load, and the declared fields are
/// then validated.
pub fn load_str(text: &str, schema: &Schema) -> (r: Result<Loaded, ConfigError>)
    ensures
        outcome(r) == load_model(text@, *schema),
{
    let chars = chars_of(text);
    let n = chars.len();
    assert(chars@.subrange(0, n as int) == text@);
    let spans = split_spans(&chars, 0, n, '\n');
    let ghost lines = lines_of(text@);
    let last = spans.len() - 1;
    let count = if spans[last].0 == spans[last].1 {
        last
    } else {
        spans.len()
    };
    proof {
        let parts = split(text@, '\n');
        assert(spans[last as int].0 <= spans[last as int].1);
        if count == last {
            assert(lines == parts.take(count as int));
        } else {
            assert(parts.take(count as int) == parts);
        }
    }
    assert(count == lines.len());
    let mut params = ParameterSet::new();
    let mut warnings: Vec<String> = Vec::new();
    let mut k: usize = 0;
    assert(lines.take(0) == Seq::<Seq<char>>::empty());
    assert(strings_view(warnings@) =~= Seq::<Seq<char>>::empty());
    while k < count
        invariant
            chars@ == text@,
            n == chars.len(),
            count <= spans.len(),
            spans.len() == split(text@, '\n').len(),
            count == lines.len(),
            lines == lines_of(text@),
            lines == split(text@, '\n').take(count as int),
            forall|j: int|
                0 <= j < spans.len() ==> 0 <= #[trigger] spans[j].0 <= spans[j].1 <= n
                    && chars@.subrange(spans[j].0 as int, spans[j].1 as int) == split(text@, '\n')[j],
            k <= count,
            read_lines(lines.take(k as int), *schema) == Ok::<Progress, ErrorModel>(
                Progress { params: params@, warnings: strings_view(warnings@) },
            ),
        decreases count - k,
    {
        let (a, b) = spans[k];
        assert(spans[k as int].0 == a && spans[k as int].1 == b);
        assert(lines.take(k + 1).drop_last() == lines.take(k as int));
        assert(lines.take(k + 1).last() == chars@.subrange(a as int, b as int));
        let res = read_line(text, &chars, a, b, k + 1, schema, &mut params, &mut warnings);
        if let Err(e) = res {
            proof {
                lemma_read_lines_err(lines, k + 1, *schema);
            }
            return Err(e);
        }
        k = k + 1;
    }
    assert(lines.take(count as int) == lines);
    if let Some(f) = missing_field(&params, schema) {
        return Err(ConfigError::MissingField { key: f });
    }
    let empty_list = match &params.temperature {
        Some(v) => v.len() == 0,
        None => false,
    };
    if schema.temperature && empty_list {
        assert(strings_view(params.temperature->0@) =~= Seq::<Seq<char>>::empty());
        return Err(ConfigError::EmptyList { key: Field::Temperature });
    }
    proof {
        if params.temperature is Some {
            assert(strings_view(params.temperature->0@).len() == params.temperature->0@.len());
        }
    }
    Ok(Loaded { params, warnings })
}

} // verus!
