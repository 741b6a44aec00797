//! The parameter model: values, entries, targets (ROS nodes), summaries,
//! update requests and results, and the export selection.
//!
//! Each type has a mathematical view over `Seq`, `Option` and plain values;
//! every contract in the crate is stated over these views.
use vstd::prelude::*;

use crate::text::{
    bool_text, decimal, starts_with, text_eq, text_starts_with, join, lemma_join_push, push_bool, push_char, push_decimal,
    push_signed_decimal, push_str, signed_decimal,
};

verus! {

// ---------------------------------------------------------------------------
// Floating-point numbers, held by their IEEE 754 binary64 encoding
// ---------------------------------------------------------------------------

/// A double-precision parameter number.
///
/// `bits` is the IEEE 754 binary64 encoding of the number (what
/// `f64::to_bits` gives). The two texts are the number as the standard
/// library writes it: `text` is the plain form (`{:.1}` for a finite whole
/// number, `{}` otherwise, so `20.0`, `0.55`, `inf`, `NaN`), `debug` the
/// `{:?}` form. They are fixed where a number enters the library from a
/// float, and the library takes them as given.
#[derive(Clone, Debug)]
pub struct FloatValue {
    pub bits: u64,
    pub text: String,
    pub debug: String,
}

/// The view of a [`FloatValue`].
pub struct FloatView {
    pub bits: u64,
    pub text: Seq<char>,
    pub debug: Seq<char>,
}

impl View for FloatValue {
    type V = FloatView;

    open spec fn view(&self) -> FloatView {
        FloatView { bits: self.bits, text: self.text@, debug: self.debug@ }
    }
}

/// The biased exponent field of an encoding.
pub open spec fn exponent_field(bits: u64) -> u64 {
    ((bits / 0x10_0000_0000_0000u64) % 0x800u64) as u64
}

/// The fraction field of an encoding.
pub open spec fn fraction_field(bits: u64) -> u64 {
    (bits % 0x10_0000_0000_0000u64) as u64
}

/// The encoding is a NaN.
pub open spec fn is_nan_bits(bits: u64) -> bool {
    exponent_field(bits) == 0x7ff && fraction_field(bits) != 0
}

/// The encoding is an infinity.
pub open spec fn is_inf_bits(bits: u64) -> bool {
    exponent_field(bits) == 0x7ff && fraction_field(bits) == 0
}

/// The sign bit is set.
pub open spec fn is_negative_bits(bits: u64) -> bool {
    bits >= 0x8000_0000_0000_0000u64
}

/// The encoding is `+0.0` or `-0.0`.
pub open spec fn is_zero_bits(bits: u64) -> bool {
    bits % 0x8000_0000_0000_0000u64 == 0
}

/// IEEE 754 equality (what `==` on `f64` computes): no NaN equals anything,
/// the two zeros are equal, and otherwise equal numbers have equal
/// encodings.
pub open spec fn float_eq(a: u64, b: u64) -> bool {
    !is_nan_bits(a) && !is_nan_bits(b) && (a == b || (is_zero_bits(a) && is_zero_bits(b)))
}

impl FloatValue {
    /// Whether the number is a NaN (`f64::is_nan`).
    pub fn is_nan(&self) -> (res: bool)
        ensures
            res == is_nan_bits(self.bits),
    {
        (self.bits / 0x10_0000_0000_0000u64) % 0x800u64 == 0x7ff && self.bits
            % 0x10_0000_0000_0000u64 != 0
    }

    /// Whether the number is an infinity (`f64::is_infinite`).
    pub fn is_infinite(&self) -> (res: bool)
        ensures
            res == is_inf_bits(self.bits),
    {
        (self.bits / 0x10_0000_0000_0000u64) % 0x800u64 == 0x7ff && self.bits
            % 0x10_0000_0000_0000u64 == 0
    }

    /// Whether the sign bit is set (`f64::is_sign_negative`).
    pub fn is_sign_negative(&self) -> (res: bool)
        ensures
            res == is_negative_bits(self.bits),
    {
        self.bits >= 0x8000_0000_0000_0000u64
    }

    /// Whether the two numbers are equal as floats (`==` on `f64`).
    pub fn same_number(&self, other: &FloatValue) -> (res: bool)
        ensures
            res == float_eq(self.bits, other.bits),
    {
        if self.is_nan() || other.is_nan() {
            false
        } else {
            self.bits == other.bits || (self.bits % 0x8000_0000_0000_0000u64 == 0 && other.bits
                % 0x8000_0000_0000_0000u64 == 0)
        }
    }

    /// A copy of the number.
    pub fn copy_float(&self) -> (res: FloatValue)
        ensures
            res@ == self@,
    {
        FloatValue { bits: self.bits, text: self.text.clone(), debug: self.debug.clone() }
    }
}

// ---------------------------------------------------------------------------
// States
// ---------------------------------------------------------------------------

/// The state of a parameter target (a node).
#[derive(Clone, Copy, Debug, PartialEq, Eq, Structural)]
pub enum ParameterTargetState {
    /// Reachable and serving parameters.
    Available,
    /// The node exists but offers no parameter service.
    NoParameterService,
    /// A request to the node timed out.
    Timeout,
    /// A lifecycle node that is not active.
    LifecycleInactive,
    /// The node is gone.
    Disappeared,
}

/// The local apply state of a parameter.
#[derive(Clone, Debug)]
pub enum ApplyState {
    /// Not modified.
    Unchanged,
    /// Modified and not yet submitted.
    Pending,
    /// Submitted successfully.
    Applied,
    /// Submission failed, with the reason.
    Failed(String),
    /// Conflicts with a change made elsewhere.
    Conflict,
}

/// The view of an [`ApplyState`].
pub enum ApplyStateView {
    Unchanged,
    Pending,
    Applied,
    Failed(Seq<char>),
    Conflict,
}

impl View for ApplyState {
    type V = ApplyStateView;

    open spec fn view(&self) -> ApplyStateView {
        match self {
            ApplyState::Unchanged => ApplyStateView::Unchanged,
            ApplyState::Pending => ApplyStateView::Pending,
            ApplyState::Applied => ApplyStateView::Applied,
            ApplyState::Failed(r) => ApplyStateView::Failed(r@),
            ApplyState::Conflict => ApplyStateView::Conflict,
        }
    }
}

// ---------------------------------------------------------------------------
// Parameter values
// ---------------------------------------------------------------------------

/// A ROS 2 parameter value.
#[derive(Clone, Debug)]
pub enum ParameterValue {
    NotSet,
    Bool(bool),
    Integer(i64),
    Double(FloatValue),
    String(String),
    ByteArray(Vec<u8>),
    BoolArray(Vec<bool>),
    IntegerArray(Vec<i64>),
    DoubleArray(Vec<FloatValue>),
    StringArray(Vec<String>),
}

/// The view of a [`ParameterValue`].
pub enum ValueView {
    NotSet,
    Bool(bool),
    Integer(i64),
    Double(FloatView),
    String(Seq<char>),
    ByteArray(Seq<u8>),
    BoolArray(Seq<bool>),
    IntegerArray(Seq<i64>),
    DoubleArray(Seq<FloatView>),
    StringArray(Seq<Seq<char>>),
}

/// The views of a list of strings.
pub open spec fn texts_view(v: Seq<String>) -> Seq<Seq<char>> {
    v.map_values(|s: String| s@)
}

/// The views of a list of numbers.
pub open spec fn floats_view(v: Seq<FloatValue>) -> Seq<FloatView> {
    v.map_values(|f: FloatValue| f@)
}

impl View for ParameterValue {
    type V = ValueView;

    open spec fn view(&self) -> ValueView {
        match self {
            ParameterValue::NotSet => ValueView::NotSet,
            ParameterValue::Bool(b) => ValueView::Bool(*b),
            ParameterValue::Integer(i) => ValueView::Integer(*i),
            ParameterValue::Double(f) => ValueView::Double(f@),
            ParameterValue::String(s) => ValueView::String(s@),
            ParameterValue::ByteArray(a) => ValueView::ByteArray(a@),
            ParameterValue::BoolArray(a) => ValueView::BoolArray(a@),
            ParameterValue::IntegerArray(a) => ValueView::IntegerArray(a@),
            ParameterValue::DoubleArray(a) => ValueView::DoubleArray(floats_view(a@)),
            ParameterValue::StringArray(a) => ValueView::StringArray(texts_view(a@)),
        }
    }
}

/// Equality of two values as `==` on the value type computes it: the same
/// variant with equal contents, numbers compared as floats.
pub open spec fn value_eq(a: ValueView, b: ValueView) -> bool {
    match (a, b) {
        (ValueView::NotSet, ValueView::NotSet) => true,
        (ValueView::Bool(x), ValueView::Bool(y)) => x == y,
        (ValueView::Integer(x), ValueView::Integer(y)) => x == y,
        (ValueView::Double(x), ValueView::Double(y)) => float_eq(x.bits, y.bits),
        (ValueView::String(x), ValueView::String(y)) => x == y,
        (ValueView::ByteArray(x), ValueView::ByteArray(y)) => x == y,
        (ValueView::BoolArray(x), ValueView::BoolArray(y)) => x == y,
        (ValueView::IntegerArray(x), ValueView::IntegerArray(y)) => x == y,
        (ValueView::DoubleArray(x), ValueView::DoubleArray(y)) => x.len() == y.len() && forall|
            i: int,
        |
            0 <= i < x.len() ==> float_eq(#[trigger] x[i].bits, y[i].bits),
        (ValueView::StringArray(x), ValueView::StringArray(y)) => x == y,
        _ => false,
    }
}

/// The value holds no NaN, so that it equals itself.
pub open spec fn nan_free(v: ValueView) -> bool {
    match v {
        ValueView::Double(f) => !is_nan_bits(f.bits),
        ValueView::DoubleArray(a) => forall|i: int| 0 <= i < a.len() ==> !is_nan_bits(#[trigger] a[i].bits),
        _ => true,
    }
}

/// The name of the value's type.
pub open spec fn value_type_name_of(v: ValueView) -> Seq<char> {
    match v {
        ValueView::NotSet => "not_set"@,
        ValueView::Bool(_) => "bool"@,
        ValueView::Integer(_) => "integer"@,
        ValueView::Double(_) => "double"@,
        ValueView::String(_) => "string"@,
        ValueView::ByteArray(_) => "byte_array"@,
        ValueView::BoolArray(_) => "bool_array"@,
        ValueView::IntegerArray(_) => "integer_array"@,
        ValueView::DoubleArray(_) => "double_array"@,
        ValueView::StringArray(_) => "string_array"@,
    }
}

/// The value is one of the array variants.
pub open spec fn is_array_value(v: ValueView) -> bool {
    match v {
        ValueView::ByteArray(_) | ValueView::BoolArray(_) | ValueView::IntegerArray(_)
        | ValueView::DoubleArray(_) | ValueView::StringArray(_) => true,
        _ => false,
    }
}

/// `", "`.
pub open spec fn comma_space() -> Seq<char> {
    seq![',', ' ']
}

/// `items` joined by `", "` inside square brackets: the `{:?}` form of a
/// list whose items have the given forms.
pub open spec fn bracketed(items: Seq<Seq<char>>) -> Seq<char> {
    seq!['['] + join(items, comma_space()) + seq![']']
}

/// What `<str as Debug>::fmt` writes for a string: the string in double
/// quotes with its special characters escaped.
pub uninterp spec fn str_debug(s: Seq<char>) -> Seq<char>;

/// The text that shows a value in the user interface.
pub open spec fn display_of(v: ValueView) -> Seq<char> {
    match v {
        ValueView::NotSet => "<not set>"@,
        ValueView::Bool(b) => bool_text(b),
        ValueView::Integer(i) => signed_decimal(i as int),
        ValueView::Double(f) => f.text,
        ValueView::String(s) => s,
        ValueView::ByteArray(a) => seq!['['] + decimal(a.len()) + " bytes]"@,
        ValueView::BoolArray(a) => seq!['['] + bracketed(a.map_values(|b: bool| bool_text(b)))
            + seq![']'],
        ValueView::IntegerArray(a) => bracketed(
            a.map_values(|i: i64| signed_decimal(i as int)),
        ),
        ValueView::DoubleArray(a) => bracketed(a.map_values(|f: FloatView| f.debug)),
        ValueView::StringArray(a) => bracketed(a.map_values(|s: Seq<char>| str_debug(s))),
    }
}

/// Writes `s` with `format!("{:?}", s)`, that is `<str as Debug>::fmt`.
/// The contract only names the result `str_debug(s)`: it claims that the
/// same text always gives the same result, and nothing about its form.
#[verifier::external_body]
fn debug_text(s: &str) -> (res: String)
    ensures
        res@ == str_debug(s@),
{
    format!("{:?}", s)
}

/// `items` joined by `", "` between square brackets.
pub fn bracket_list(items: &Vec<String>) -> (res: String)
    ensures
        res@ == bracketed(texts_view(items@)),
{
    let mut out = String::new();
    push_char(&mut out, '[');
    let mut i: usize = 0;
    while i < items.len()
        invariant
            i <= items@.len(),
            out@ == seq!['['] + join(texts_view(items@.subrange(0, i as int)), comma_space()),
        decreases items@.len() - i,
    {
        proof {
            lemma_join_push(texts_view(items@.subrange(0, i as int)), comma_space(), items@[i as int]@);
            assert(texts_view(items@.subrange(0, i + 1)) =~= texts_view(
                items@.subrange(0, i as int),
            ).push(items@[i as int]@));
        }
        if i > 0 {
            push_char(&mut out, ',');
            push_char(&mut out, ' ');
        }
        push_str(&mut out, items[i].as_str());
        assert(out@ =~= seq!['['] + join(texts_view(items@.subrange(0, i + 1)), comma_space()));
        i = i + 1;
    }
    push_char(&mut out, ']');
    assert(items@.subrange(0, items@.len() as int) =~= items@);
    assert(out@ =~= bracketed(texts_view(items@)));
    out
}

fn copy_texts(v: &Vec<String>) -> (res: Vec<String>)
    ensures
        texts_view(res@) == texts_view(v@),
{
    let mut out: Vec<String> = Vec::new();
    let mut i: usize = 0;
    while i < v.len()
        invariant
            i <= v@.len(),
            out@.len() == i,
            forall|j: int| 0 <= j < i ==> (#[trigger] out@[j])@ == v@[j]@,
        decreases v@.len() - i,
    {
        out.push(v[i].clone());
        i = i + 1;
    }
    assert(texts_view(out@) =~= texts_view(v@));
    out
}

fn copy_floats(v: &Vec<FloatValue>) -> (res: Vec<FloatValue>)
    ensures
        floats_view(res@) == floats_view(v@),
{
    let mut out: Vec<FloatValue> = Vec::new();
    let mut i: usize = 0;
    while i < v.len()
        invariant
            i <= v@.len(),
            out@.len() == i,
            forall|j: int| 0 <= j < i ==> (#[trigger] out@[j])@ == v@[j]@,
        decreases v@.len() - i,
    {
        out.push(v[i].copy_float());
        i = i + 1;
    }
    assert(floats_view(out@) =~= floats_view(v@));
    out
}

fn copy_plain<T: Copy>(v: &Vec<T>) -> (res: Vec<T>)
    ensures
        res@ == v@,
{
    let mut out: Vec<T> = Vec::new();
    let mut i: usize = 0;
    while i < v.len()
        invariant
            i <= v@.len(),
            out@ == v@.subrange(0, i as int),
        decreases v@.len() - i,
    {
        out.push(v[i]);
        assert(out@ =~= v@.subrange(0, i + 1));
        i = i + 1;
    }
    assert(v@.subrange(0, v@.len() as int) =~= v@);
    out
}

fn floats_eq(x: &Vec<FloatValue>, y: &Vec<FloatValue>) -> (res: bool)
    ensures
        res == (floats_view(x@).len() == floats_view(y@).len() && forall|i: int|
            0 <= i < floats_view(x@).len() ==> float_eq(
                #[trigger] floats_view(x@)[i].bits,
                floats_view(y@)[i].bits,
            )),
{
    if x.len() != y.len() {
        return false;
    }
    let mut i: usize = 0;
    while i < x.len()
        invariant
            x@.len() == y@.len(),
            i <= x@.len(),
            forall|j: int| 0 <= j < i ==> float_eq(x@[j].bits, y@[j].bits),
        decreases x@.len() - i,
    {
        if !x[i].same_number(&y[i]) {
            assert(!float_eq(floats_view(x@)[i as int].bits, floats_view(y@)[i as int].bits));
            return false;
        }
        i = i + 1;
    }
    assert forall|j: int| 0 <= j < floats_view(x@).len() implies float_eq(
        #[trigger] floats_view(x@)[j].bits,
        floats_view(y@)[j].bits,
    ) by {
        assert(float_eq(x@[j].bits, y@[j].bits));
    }
    true
}

fn texts_eq(x: &Vec<String>, y: &Vec<String>) -> (res: bool)
    ensures
        res == (texts_view(x@) == texts_view(y@)),
{
    if x.len() != y.len() {
        assert(texts_view(x@).len() != texts_view(y@).len());
        return false;
    }
    let mut i: usize = 0;
    while i < x.len()
        invariant
            x@.len() == y@.len(),
            i <= x@.len(),
            forall|j: int| 0 <= j < i ==> x@[j]@ == y@[j]@,
        decreases x@.len() - i,
    {
        if x[i] != y[i] {
            assert(texts_view(x@)[i as int] != texts_view(y@)[i as int]);
            return false;
        }
        i = i + 1;
    }
    assert(texts_view(x@) =~= texts_view(y@));
    true
}

impl ParameterValue {
    /// The name of the value's type, for display and export.
    pub fn value_type_name(&self) -> (res: &'static str)
        ensures
            res@ == value_type_name_of(self@),
    {
        match self {
            ParameterValue::NotSet => "not_set",
            ParameterValue::Bool(_) => "bool",
            ParameterValue::Integer(_) => "integer",
            ParameterValue::Double(_) => "double",
            ParameterValue::String(_) => "string",
            ParameterValue::ByteArray(_) => "byte_array",
            ParameterValue::BoolArray(_) => "bool_array",
            ParameterValue::IntegerArray(_) => "integer_array",
            ParameterValue::DoubleArray(_) => "double_array",
            ParameterValue::StringArray(_) => "string_array",
        }
    }

    /// The value as the user interface shows it.
    pub fn display_value(&self) -> (res: String)
        ensures
            res@ == display_of(self@),
    {
        match self {
            ParameterValue::NotSet => String::from_str("<not set>"),
            ParameterValue::Bool(b) => {
                let mut out = String::new();
                push_bool(&mut out, *b);
                out
            },
            ParameterValue::Integer(i) => {
                let mut out = String::new();
                push_signed_decimal(&mut out, *i);
                out
            },
            ParameterValue::Double(f) => f.text.clone(),
            ParameterValue::String(s) => s.clone(),
            ParameterValue::ByteArray(a) => {
                let mut out = String::new();
                push_char(&mut out, '[');
                push_decimal(&mut out, a.len() as u64);
                push_str(&mut out, " bytes]");
                assert(out@ =~= seq!['['] + decimal(a@.len()) + " bytes]"@);
                out
            },
            ParameterValue::BoolArray(a) => {
                let mut items: Vec<String> = Vec::new();
                let mut i: usize = 0;
                while i < a.len()
                    invariant
                        i <= a@.len(),
                        items@.len() == i,
                        forall|j: int| 0 <= j < i ==> (#[trigger] items@[j])@ == bool_text(a@[j]),
                    decreases a@.len() - i,
                {
                    let mut t = String::new();
                    push_bool(&mut t, a[i]);
                    items.push(t);
                    i = i + 1;
                }
                assert(texts_view(items@) =~= a@.map_values(|b: bool| bool_text(b)));
                let inner = bracket_list(&items);
                let mut out = String::new();
                push_char(&mut out, '[');
                push_str(&mut out, inner.as_str());
                push_char(&mut out, ']');
                assert(out@ =~= seq!['['] + bracketed(a@.map_values(|b: bool| bool_text(b)))
                    + seq![']']);
                out
            },
            ParameterValue::IntegerArray(a) => {
                let mut items: Vec<String> = Vec::new();
                let mut i: usize = 0;
                while i < a.len()
                    invariant
                        i <= a@.len(),
                        items@.len() == i,
                        forall|j: int|
                            0 <= j < i ==> (#[trigger] items@[j])@ == signed_decimal(a@[j] as int),
                    decreases a@.len() - i,
                {
                    let mut t = String::new();
                    push_signed_decimal(&mut t, a[i]);
                    items.push(t);
                    i = i + 1;
                }
                assert(texts_view(items@) =~= a@.map_values(|x: i64| signed_decimal(x as int)));
                bracket_list(&items)
            },
            ParameterValue::DoubleArray(a) => {
                let mut items: Vec<String> = Vec::new();
                let mut i: usize = 0;
                while i < a.len()
                    invariant
                        i <= a@.len(),
                        items@.len() == i,
                        forall|j: int| 0 <= j < i ==> (#[trigger] items@[j])@ == a@[j].debug@,
                    decreases a@.len() - i,
                {
                    items.push(a[i].debug.clone());
                    i = i + 1;
                }
                assert(texts_view(items@) =~= floats_view(a@).map_values(|f: FloatView| f.debug));
                bracket_list(&items)
            },
            ParameterValue::StringArray(a) => {
                let mut items: Vec<String> = Vec::new();
                let mut i: usize = 0;
                while i < a.len()
                    invariant
                        i <= a@.len(),
                        items@.len() == i,
                        forall|j: int| 0 <= j < i ==> (#[trigger] items@[j])@ == str_debug(a@[j]@),
                    decreases a@.len() - i,
                {
                    items.push(debug_text(a[i].as_str()));
                    i = i + 1;
                }
                assert(texts_view(items@) =~= texts_view(a@).map_values(|s: Seq<char>| str_debug(s)));
                bracket_list(&items)
            },
        }
    }

    /// Whether the value is one of the array variants.
    pub fn is_array(&self) -> (res: bool)
        ensures
            res == is_array_value(self@),
    {
        match self {
            ParameterValue::ByteArray(_) | ParameterValue::BoolArray(_)
            | ParameterValue::IntegerArray(_) | ParameterValue::DoubleArray(_)
            | ParameterValue::StringArray(_) => true,
            _ => false,
        }
    }

    /// Whether the two values are equal (`==` on values).
    pub fn eq_value(&self, other: &ParameterValue) -> (res: bool)
        ensures
            res == value_eq(self@, other@),
    {
        match (self, other) {
            (ParameterValue::NotSet, ParameterValue::NotSet) => true,
            (ParameterValue::Bool(x), ParameterValue::Bool(y)) => *x == *y,
            (ParameterValue::Integer(x), ParameterValue::Integer(y)) => *x == *y,
            (ParameterValue::Double(x), ParameterValue::Double(y)) => x.same_number(y),
            (ParameterValue::String(x), ParameterValue::String(y)) => *x == *y,
            (ParameterValue::ByteArray(x), ParameterValue::ByteArray(y)) => {
                let r = *x == *y;
                assert(r ==> x@ =~= y@);
                r
            },
            (ParameterValue::BoolArray(x), ParameterValue::BoolArray(y)) => {
                let r = *x == *y;
                assert(r ==> x@ =~= y@);
                r
            },
            (ParameterValue::IntegerArray(x), ParameterValue::IntegerArray(y)) => {
                let r = *x == *y;
                assert(r ==> x@ =~= y@);
                r
            },
            (ParameterValue::DoubleArray(x), ParameterValue::DoubleArray(y)) => floats_eq(x, y),
            (ParameterValue::StringArray(x), ParameterValue::StringArray(y)) => texts_eq(x, y),
            _ => false,
        }
    }

    /// A copy of the value.
    pub fn copy_value(&self) -> (res: ParameterValue)
        ensures
            res@ == self@,
    {
        match self {
            ParameterValue::NotSet => ParameterValue::NotSet,
            ParameterValue::Bool(b) => ParameterValue::Bool(*b),
            ParameterValue::Integer(i) => ParameterValue::Integer(*i),
            ParameterValue::Double(f) => ParameterValue::Double(f.copy_float()),
            ParameterValue::String(s) => ParameterValue::String(s.clone()),
            ParameterValue::ByteArray(a) => ParameterValue::ByteArray(copy_plain(a)),
            ParameterValue::BoolArray(a) => ParameterValue::BoolArray(copy_plain(a)),
            ParameterValue::IntegerArray(a) => ParameterValue::IntegerArray(copy_plain(a)),
            ParameterValue::DoubleArray(a) => ParameterValue::DoubleArray(copy_floats(a)),
            ParameterValue::StringArray(a) => ParameterValue::StringArray(copy_texts(a)),
        }
    }
}


// ---------------------------------------------------------------------------
// Ranges and entries
// ---------------------------------------------------------------------------

/// An integer range constraint.
#[derive(Clone, Copy, Debug)]
pub struct IntegerRange {
    pub from: i64,
    pub to: i64,
    pub step: u64,
}

/// A floating-point range constraint.
#[derive(Clone, Debug)]
pub struct FloatingPointRange {
    pub from: FloatValue,
    pub to: FloatValue,
    pub step: FloatValue,
}

/// The view of a [`FloatingPointRange`].
pub struct FloatRangeView {
    pub from: FloatView,
    pub to: FloatView,
    pub step: FloatView,
}

impl View for FloatingPointRange {
    type V = FloatRangeView;

    open spec fn view(&self) -> FloatRangeView {
        FloatRangeView { from: self.from@, to: self.to@, step: self.step@ }
    }
}

/// One parameter of a node.
#[derive(Clone, Debug)]
pub struct ParameterEntry {
    /// Full parameter name (such as `FollowPath.max_vel_x`).
    pub name: String,
    /// The value now staged or applied.
    pub current_value: ParameterValue,
    /// The value read from the node, for comparison and undo.
    pub original_value: ParameterValue,
    /// Description text.
    pub description: String,
    /// Further constraints, as text.
    pub additional_constraints: String,
    /// The parameter cannot be written.
    pub read_only: bool,
    /// The parameter may change its type.
    pub dynamic_typing: bool,
    /// Integer range constraints.
    pub integer_ranges: Vec<IntegerRange>,
    /// Floating-point range constraints.
    pub floating_ranges: Vec<FloatingPointRange>,
    /// The current value differs from the original (tracked locally).
    pub changed: bool,
    /// Apply state.
    pub apply_state: ApplyState,
}

/// The view of a [`ParameterEntry`].
pub struct EntryView {
    pub name: Seq<char>,
    pub current_value: ValueView,
    pub original_value: ValueView,
    pub description: Seq<char>,
    pub additional_constraints: Seq<char>,
    pub read_only: bool,
    pub dynamic_typing: bool,
    pub integer_ranges: Seq<IntegerRange>,
    pub floating_ranges: Seq<FloatRangeView>,
    pub changed: bool,
    pub apply_state: ApplyStateView,
}

impl View for ParameterEntry {
    type V = EntryView;

    open spec fn view(&self) -> EntryView {
        EntryView {
            name: self.name@,
            current_value: self.current_value@,
            original_value: self.original_value@,
            description: self.description@,
            additional_constraints: self.additional_constraints@,
            read_only: self.read_only,
            dynamic_typing: self.dynamic_typing,
            integer_ranges: self.integer_ranges@,
            floating_ranges: self.floating_ranges@.map_values(|r: FloatingPointRange| r@),
            changed: self.changed,
            apply_state: self.apply_state@,
        }
    }
}

/// The entry after `reset`: the original value back, nothing changed.
pub open spec fn reset_view(e: EntryView) -> EntryView {
    EntryView {
        current_value: e.original_value,
        changed: false,
        apply_state: ApplyStateView::Unchanged,
        ..e
    }
}

/// The entry after `stage_value(v)`: `v` is current, and it counts as a
/// change, pending, exactly when it differs from the original value.
pub open spec fn staged(e: EntryView, v: ValueView) -> EntryView {
    let changed = !value_eq(v, e.original_value);
    EntryView {
        current_value: v,
        changed: changed,
        apply_state: if changed {
            ApplyStateView::Pending
        } else {
            ApplyStateView::Unchanged
        },
        ..e
    }
}

impl ParameterEntry {
    /// Puts the original value back and clears the change.
    pub fn reset(&mut self)
        ensures
            final(self)@ == reset_view(old(self)@),
    {
        self.current_value = self.original_value.copy_value();
        self.changed = false;
        self.apply_state = ApplyState::Unchanged;
    }

    /// Stages a new value locally (nothing is sent to the node).
    pub fn stage_value(&mut self, value: ParameterValue)
        ensures
            final(self)@ == staged(old(self)@, value@),
    {
        self.current_value = value;
        self.changed = !self.current_value.eq_value(&self.original_value);
        if self.changed {
            self.apply_state = ApplyState::Pending;
        } else {
            self.apply_state = ApplyState::Unchanged;
        }
    }
}

// ---------------------------------------------------------------------------
// Targets
// ---------------------------------------------------------------------------

/// The views of a list of entries.
pub open spec fn entries_view(ps: Seq<ParameterEntry>) -> Seq<EntryView> {
    ps.map_values(|p: ParameterEntry| p@)
}

/// The views of a list of borrowed entries.
pub open spec fn entry_refs_view(ps: Seq<&ParameterEntry>) -> Seq<EntryView> {
    ps.map_values(|p: &ParameterEntry| p@)
}

/// The entries marked as changed, in their order.
pub open spec fn changed_entries(ps: Seq<EntryView>) -> Seq<EntryView>
    decreases ps.len(),
{
    if ps.len() == 0 {
        seq![]
    } else if ps.last().changed {
        changed_entries(ps.drop_last()).push(ps.last())
    } else {
        changed_entries(ps.drop_last())
    }
}

/// A parameter target: one ROS node.
#[derive(Clone, Debug)]
pub struct ParameterTarget {
    /// Full node name (such as `/navigation/controller_server`).
    pub full_node_name: String,
    /// Namespace (such as `/navigation`).
    pub namespace: String,
    /// Node name (such as `controller_server`).
    pub node_name: String,
    /// State.
    pub state: ParameterTargetState,
    /// Parameters.
    pub parameters: Vec<ParameterEntry>,
}

/// The view of a [`ParameterTarget`].
pub struct TargetView {
    pub full_node_name: Seq<char>,
    pub namespace: Seq<char>,
    pub node_name: Seq<char>,
    pub state: ParameterTargetState,
    pub parameters: Seq<EntryView>,
}

impl View for ParameterTarget {
    type V = TargetView;

    open spec fn view(&self) -> TargetView {
        TargetView {
            full_node_name: self.full_node_name@,
            namespace: self.namespace@,
            node_name: self.node_name@,
            state: self.state,
            parameters: entries_view(self.parameters@),
        }
    }
}

impl ParameterTarget {
    /// The parameters marked as changed.
    pub fn changed_parameters(&self) -> (res: Vec<&ParameterEntry>)
        ensures
            entry_refs_view(res@) == changed_entries(self@.parameters),
    {
        let mut out: Vec<&ParameterEntry> = Vec::new();
        let mut i: usize = 0;
        while i < self.parameters.len()
            invariant
                i <= self.parameters@.len(),
                entry_refs_view(out@) == changed_entries(
                    entries_view(self.parameters@.subrange(0, i as int)),
                ),
            decreases self.parameters@.len() - i,
        {
            let p = &self.parameters[i];
            proof {
                assert(entries_view(self.parameters@.subrange(0, i + 1)).drop_last() =~= entries_view(
                    self.parameters@.subrange(0, i as int),
                ));
            }
            if p.changed {
                let ghost before = out@;
                out.push(p);
                assert(entry_refs_view(out@) =~= entry_refs_view(before).push(p@));
            }
            i = i + 1;
        }
        assert(self.parameters@.subrange(0, self.parameters@.len() as int) =~= self.parameters@);
        out
    }

    /// Whether some parameter is staged and not yet submitted.
    pub fn has_pending_changes(&self) -> (res: bool)
        ensures
            res == exists|i: int|
                0 <= i < self@.parameters.len() && (#[trigger] self@.parameters[i]).apply_state
                    is Pending,
    {
        let mut i: usize = 0;
        while i < self.parameters.len()
            invariant
                i <= self.parameters@.len(),
                forall|j: int| 0 <= j < i ==> !(self.parameters@[j].apply_state@ is Pending),
            decreases self.parameters@.len() - i,
        {
            match self.parameters[i].apply_state {
                ApplyState::Pending => {
                    assert(self@.parameters[i as int].apply_state is Pending);
                    return true;
                },
                _ => {},
            }
            i = i + 1;
        }
        assert forall|j: int| 0 <= j < self@.parameters.len() implies !((
        #[trigger] self@.parameters[j]).apply_state is Pending) by {
            assert(self@.parameters[j] == self.parameters@[j]@);
        }
        false
    }
}

// ---------------------------------------------------------------------------
// Summaries, updates, results, export selection
// ---------------------------------------------------------------------------

/// A target as a list shows it, without its parameters.
#[derive(Clone, Debug)]
pub struct ParameterTargetSummary {
    pub full_node_name: String,
    pub namespace: String,
    pub node_name: String,
    pub state: ParameterTargetState,
    pub parameter_count: usize,
}

/// The view of a [`ParameterTargetSummary`].
pub struct SummaryView {
    pub full_node_name: Seq<char>,
    pub namespace: Seq<char>,
    pub node_name: Seq<char>,
    pub state: ParameterTargetState,
    pub parameter_count: usize,
}

impl View for ParameterTargetSummary {
    type V = SummaryView;

    open spec fn view(&self) -> SummaryView {
        SummaryView {
            full_node_name: self.full_node_name@,
            namespace: self.namespace@,
            node_name: self.node_name@,
            state: self.state,
            parameter_count: self.parameter_count,
        }
    }
}

/// A request to set one parameter.
#[derive(Clone, Debug)]
pub struct ParameterUpdate {
    pub name: String,
    pub value: ParameterValue,
}

/// The view of a [`ParameterUpdate`].
pub struct UpdateView {
    pub name: Seq<char>,
    pub value: ValueView,
}

impl View for ParameterUpdate {
    type V = UpdateView;

    open spec fn view(&self) -> UpdateView {
        UpdateView { name: self.name@, value: self.value@ }
    }
}

/// The outcome of setting one parameter.
#[derive(Clone, Debug)]
pub struct ApplyResult {
    pub name: String,
    pub successful: bool,
    pub reason: Option<String>,
}

/// The view of an [`ApplyResult`].
pub struct ResultView {
    pub name: Seq<char>,
    pub successful: bool,
    pub reason: Option<Seq<char>>,
}

impl View for ApplyResult {
    type V = ResultView;

    open spec fn view(&self) -> ResultView {
        ResultView {
            name: self.name@,
            successful: self.successful,
            reason: match self.reason {
                Some(r) => Some(r@),
                None => None,
            },
        }
    }
}

/// What to export.
#[derive(Clone, Debug)]
pub struct ExportSelection {
    /// Full names of the nodes to export (none, or an empty list: all).
    pub nodes: Option<Vec<String>>,
    /// Export only the changed parameters.
    pub only_changed: bool,
    /// Include the system's internal parameters (`use_sim_time`,
    /// `qos_overrides.*` and the like).
    pub include_internal: bool,
    /// Include read-only parameters.
    pub include_readonly: bool,
    /// One file per namespace.
    pub split_by_namespace: bool,
    /// One file per node.
    pub split_by_node: bool,
    /// Most node sections in one namespace file (none or zero: no limit).
    pub max_nodes_per_file: Option<usize>,
}

/// The view of an [`ExportSelection`].
pub struct SelectionView {
    pub nodes: Option<Seq<Seq<char>>>,
    pub only_changed: bool,
    pub include_internal: bool,
    pub include_readonly: bool,
    pub split_by_namespace: bool,
    pub split_by_node: bool,
    pub max_nodes_per_file: Option<usize>,
}

impl View for ExportSelection {
    type V = SelectionView;

    open spec fn view(&self) -> SelectionView {
        SelectionView {
            nodes: match self.nodes {
                Some(v) => Some(texts_view(v@)),
                None => None,
            },
            only_changed: self.only_changed,
            include_internal: self.include_internal,
            include_readonly: self.include_readonly,
            split_by_namespace: self.split_by_namespace,
            split_by_node: self.split_by_node,
            max_nodes_per_file: self.max_nodes_per_file,
        }
    }
}

impl Default for ExportSelection {
    /// All nodes, every parameter but the internal and read-only ones,
    /// one file.
    fn default() -> (res: Self)
        ensures
            res@.nodes is None,
            !res@.only_changed,
            !res@.include_internal,
            !res@.include_readonly,
            !res@.split_by_namespace,
            !res@.split_by_node,
            res@.max_nodes_per_file is None,
    {
        ExportSelection {
            nodes: None,
            only_changed: false,
            include_internal: false,
            include_readonly: false,
            split_by_namespace: false,
            split_by_node: false,
            max_nodes_per_file: None,
        }
    }
}

/// A parameter that ROS 2 itself declares on every node.
pub open spec fn internal_name(name: Seq<char>) -> bool {
    ||| name == "use_sim_time"@
    ||| name == "start_type_description_service"@
    ||| starts_with(name, "qos_overrides."@)
}

/// Whether `name` is one of ROS 2's internal parameters.
pub fn is_internal_parameter(name: &str) -> (res: bool)
    ensures
        res == internal_name(name@),
{
    text_eq(name, "use_sim_time") || text_eq(name, "start_type_description_service")
        || text_starts_with(name, "qos_overrides.")
}

// ---------------------------------------------------------------------------
// Laws
// ---------------------------------------------------------------------------

/// Value equality is symmetric.
pub proof fn lemma_value_eq_symmetric(a: ValueView, b: ValueView)
    ensures
        value_eq(a, b) == value_eq(b, a),
{
}

/// A value without NaN equals itself.
pub proof fn lemma_value_eq_reflexive(a: ValueView)
    requires
        nan_free(a),
    ensures
        value_eq(a, a),
{
}

/// Resetting undoes any staging: staging a value and then resetting leaves
/// the entry as resetting alone does.
pub proof fn law_reset_undoes_stage(e: EntryView, v: ValueView)
    ensures
        reset_view(staged(e, v)) == reset_view(e),
{
}

/// Resetting twice is resetting once.
pub proof fn law_reset_idempotent(e: EntryView)
    ensures
        reset_view(reset_view(e)) == reset_view(e),
{
}

/// Staging the original value (when it holds no NaN) leaves the entry
/// unchanged, as resetting does.
pub proof fn law_stage_original_is_reset(e: EntryView)
    requires
        nan_free(e.original_value),
    ensures
        staged(e, e.original_value) == reset_view(e),
{
    lemma_value_eq_reflexive(e.original_value);
}

/// Only the last staged value counts.
pub proof fn law_last_stage_wins(e: EntryView, v1: ValueView, v2: ValueView)
    ensures
        staged(staged(e, v1), v2) == staged(e, v2),
{
}

/// The entry's change tracking agrees with its values: it is marked changed
/// exactly when its value differs from the original, pending exactly when
/// changed, and unchanged otherwise.
pub open spec fn tracking_consistent(e: EntryView) -> bool {
    &&& e.changed == !value_eq(e.current_value, e.original_value)
    &&& (e.apply_state is Pending) == e.changed
    &&& !e.changed ==> e.apply_state is Unchanged
}

/// One local edit: stage a value, or reset.
pub enum Edit {
    Stage(ValueView),
    Reset,
}

/// The entry after a run of edits, applied in order.
pub open spec fn apply_edits(e: EntryView, edits: Seq<Edit>) -> EntryView
    decreases edits.len(),
{
    if edits.len() == 0 {
        e
    } else {
        let before = apply_edits(e, edits.drop_last());
        match edits.last() {
            Edit::Stage(v) => staged(before, v),
            Edit::Reset => reset_view(before),
        }
    }
}

/// After any non-empty run of stages and resets, the original value is the
/// one the entry started with and the change tracking agrees with the
/// values (when the original holds no NaN).
pub proof fn law_edits_keep_tracking_consistent(e: EntryView, edits: Seq<Edit>)
    requires
        edits.len() > 0,
        nan_free(e.original_value),
    ensures
        apply_edits(e, edits).original_value == e.original_value,
        tracking_consistent(apply_edits(e, edits)),
    decreases edits.len(),
{
    if edits.len() > 1 {
        law_edits_keep_tracking_consistent(e, edits.drop_last());
    }
    lemma_original_kept(e, edits.drop_last());
    lemma_value_eq_reflexive(e.original_value);
}

proof fn lemma_original_kept(e: EntryView, edits: Seq<Edit>)
    ensures
        apply_edits(e, edits).original_value == e.original_value,
    decreases edits.len(),
{
    if edits.len() > 0 {
        lemma_original_kept(e, edits.drop_last());
    }
}

/// After staging, an entry is marked changed exactly when it is pending,
/// and then its value differs from the original.
pub proof fn law_staged_changed_iff_pending(e: EntryView, v: ValueView)
    ensures
        staged(e, v).changed <==> staged(e, v).apply_state is Pending,
        staged(e, v).changed <==> !value_eq(v, e.original_value),
        !staged(e, v).changed ==> staged(e, v).apply_state is Unchanged,
{
}

/// For every value that holds no floating-point number, value equality is
/// plain equality: the same kind with the same contents, lists with the
/// same items in the same order.
pub proof fn law_value_eq_exact(a: ValueView, b: ValueView)
    requires
        !(a is Double),
        !(a is DoubleArray),
    ensures
        value_eq(a, b) <==> a == b,
{
}

/// Numbers compare as `f64` does: a NaN equals nothing, `+0.0` equals
/// `-0.0`, and otherwise two numbers are equal exactly when their encodings
/// are; number lists are equal when they have the same length and equal
/// numbers at each place.
pub proof fn law_value_eq_numbers(
    x: FloatView,
    y: FloatView,
    xs: Seq<FloatView>,
    ys: Seq<FloatView>,
)
    ensures
        is_nan_bits(x.bits) ==> !value_eq(ValueView::Double(x), ValueView::Double(y)),
        is_nan_bits(y.bits) ==> !value_eq(ValueView::Double(x), ValueView::Double(y)),
        (x.bits == 0 || x.bits == 0x8000_0000_0000_0000u64) && (y.bits == 0 || y.bits
            == 0x8000_0000_0000_0000u64) ==> value_eq(ValueView::Double(x), ValueView::Double(y)),
        !is_nan_bits(x.bits) && !is_nan_bits(y.bits) && x.bits % 0x8000_0000_0000_0000u64 != 0
            ==> (value_eq(ValueView::Double(x), ValueView::Double(y)) <==> x.bits == y.bits),
        value_eq(ValueView::DoubleArray(xs), ValueView::DoubleArray(ys)) <==> (xs.len() == ys.len()
            && forall|i: int|
            0 <= i < xs.len() ==> value_eq(
                ValueView::Double(#[trigger] xs[i]),
                ValueView::Double(ys[i]),
            )),
{
    assert(exponent_field(0) == 0);
    assert(exponent_field(0x8000_0000_0000_0000u64) == 0);
}

/// Staging a value that holds no floating-point number makes it current
/// and marks the entry changed and pending exactly when it differs from
/// the original value (unchanged otherwise); nothing else of the entry
/// moves.
pub proof fn law_stage_marks_difference(e: EntryView, v: ValueView)
    requires
        !(v is Double),
        !(v is DoubleArray),
    ensures
        staged(e, v).current_value == v,
        staged(e, v).changed <==> v != e.original_value,
        v != e.original_value ==> staged(e, v).apply_state == ApplyStateView::Pending,
        v == e.original_value ==> staged(e, v).apply_state == ApplyStateView::Unchanged,
        staged(e, v).original_value == e.original_value,
        staged(e, v).name == e.name,
        staged(e, v).read_only == e.read_only,
{
    law_value_eq_exact(v, e.original_value);
}

/// Resetting puts the original value back as the current one and leaves
/// the entry unchanged and with nothing to apply; nothing else moves.
pub proof fn law_reset_restores_original(e: EntryView)
    ensures
        reset_view(e).current_value == e.original_value,
        !reset_view(e).changed,
        reset_view(e).apply_state == ApplyStateView::Unchanged,
        reset_view(e).original_value == e.original_value,
        reset_view(e).name == e.name,
        reset_view(e).read_only == e.read_only,
{
}

} // verus!
