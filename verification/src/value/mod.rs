//! The value model: the tagged union every XFF file encodes, with its ghost
//! counterpart over which the codec's contracts are stated.

use vstd::prelude::*;
use crate::numbers::{SpecNumber, wf_number};
use crate::text::valid_text;
use crate::value::cmd_char::CommandCharacter;
use crate::value::data::{Data, wf_data};
use crate::value::num::Number;
use crate::text::lex_cmp;

pub mod array;
pub mod cmd_char;
pub mod data;
pub mod num;

use crate::value::array::Array;
use crate::value::object::Object;

pub mod object;

verus! {

/// The mathematical form of a value: what the codec's contracts speak of.
pub ghost enum SpecValue {
    String(Seq<char>),
    Number(SpecNumber),
    Array(Seq<SpecValue>),
    Object(Seq<(Seq<char>, SpecValue)>),
    Data(Seq<u8>, int),
    Boolean(bool),
    Null,
    CommandCharacter(CommandCharacter),
    ArrayCmdChar(Seq<CommandCharacter>),
}

/// An XFF value.
///
/// A file of the recursive generation holds exactly one value, which may be
/// a container; a file of the flat generation holds a sequence of the scalar
/// kinds. The two command-character kinds exist only for reading and writing
/// flat-generation files.
#[derive(Debug)]
pub enum XffValue {
    /// A text value.
    String(String),
    /// A numeric value.
    Number(Number),
    /// An ordered sequence of values.
    Array(Array),
    /// A mapping from text keys to values, kept sorted by key.
    Object(Object),
    /// A byte blob with its declared length.
    Data(Data),
    /// A boolean.
    Boolean(bool),
    /// The null value.
    Null,
    /// A legacy control-character value.
    CommandCharacter(CommandCharacter),
    /// A run of legacy control-character values.
    ArrayCmdChar(Vec<CommandCharacter>),
}

pub open spec fn view_value(v: XffValue) -> SpecValue
    decreases v,
{
    match v {
        XffValue::String(s) => SpecValue::String(s@),
        XffValue::Number(n) => SpecValue::Number(n@),
        XffValue::Array(a) => SpecValue::Array(view_values(a.values@)),
        XffValue::Object(o) => SpecValue::Object(view_pairs(o.pairs@)),
        XffValue::Data(d) => SpecValue::Data(d.data@, d.len as int),
        XffValue::Boolean(b) => SpecValue::Boolean(b),
        XffValue::Null => SpecValue::Null,
        XffValue::CommandCharacter(c) => SpecValue::CommandCharacter(c),
        XffValue::ArrayCmdChar(cs) => SpecValue::ArrayCmdChar(cs@),
    }
}

pub open spec fn view_values(vs: Seq<XffValue>) -> Seq<SpecValue>
    decreases vs,
{
    if vs.len() == 0 {
        Seq::empty()
    } else {
        seq![view_value(vs[0])] + view_values(vs.drop_first())
    }
}

pub open spec fn view_pairs(ps: Seq<(String, XffValue)>) -> Seq<(Seq<char>, SpecValue)>
    decreases ps,
{
    if ps.len() == 0 {
        Seq::empty()
    } else {
        seq![(ps[0].0@, view_value(ps[0].1))] + view_pairs(ps.drop_first())
    }
}

/// The view of a sequence of values is its values' views, in order.
pub proof fn lemma_view_values(vs: Seq<XffValue>)
    ensures
        view_values(vs).len() == vs.len(),
        forall|i: int|
            #![trigger view_values(vs)[i]]
            #![trigger view_value(vs[i])]
            0 <= i < vs.len() ==> view_values(vs)[i] == view_value(vs[i]),
    decreases vs,
{
    if vs.len() > 0 {
        lemma_view_values(vs.drop_first());
        assert(forall|i: int|
            1 <= i < vs.len() ==> #[trigger] vs[i] == vs.drop_first()[i - 1]);
    }
}

/// The view of a sequence of pairs is its pairs' views, in order.
pub proof fn lemma_view_pairs(ps: Seq<(String, XffValue)>)
    ensures
        view_pairs(ps).len() == ps.len(),
        forall|i: int|
            #![trigger view_pairs(ps)[i]]
            #![trigger ps[i]]
            0 <= i < ps.len() ==> view_pairs(ps)[i] == (ps[i].0@, view_value(ps[i].1)),
    decreases ps,
{
    if ps.len() > 0 {
        lemma_view_pairs(ps.drop_first());
        assert(forall|i: int|
            1 <= i < ps.len() ==> #[trigger] ps[i] == ps.drop_first()[i - 1]);
    }
}

impl View for XffValue {
    type V = SpecValue;

    open spec fn view(&self) -> SpecValue {
        view_value(*self)
    }
}

/// A well-formed value: texts within the accepted character set, numbers in
/// their machine ranges, blob lengths truthful, object keys valid text and
/// strictly sorted.
pub open spec fn wf_value(v: SpecValue) -> bool
    decreases v,
{
    match v {
        SpecValue::String(t) => valid_text(t),
        SpecValue::Number(n) => wf_number(n),
        SpecValue::Array(items) => wf_values(items),
        SpecValue::Object(entries) => wf_entries(entries),
        SpecValue::Data(b, len) => wf_data(b, len),
        SpecValue::Boolean(_) => true,
        SpecValue::Null => true,
        SpecValue::CommandCharacter(_) => true,
        SpecValue::ArrayCmdChar(_) => true,
    }
}

pub open spec fn wf_values(items: Seq<SpecValue>) -> bool
    decreases items,
{
    forall|i: int| 0 <= i < items.len() ==> wf_value(#[trigger] items[i])
}

/// Object entries: each key valid text, keys strictly ascending, each value
/// well formed.
pub open spec fn wf_entries(entries: Seq<(Seq<char>, SpecValue)>) -> bool
    decreases entries,
{
    &&& forall|i: int|
        0 <= i < entries.len() ==> valid_text((#[trigger] entries[i]).0) && wf_value(
            entries[i].1,
        )
    &&& sorted_keys(entries)
}

/// Keys strictly ascend in lexicographic order.
pub open spec fn sorted_keys(entries: Seq<(Seq<char>, SpecValue)>) -> bool {
    forall|i: int, j: int|
        0 <= i < j < entries.len() ==> lex_cmp((#[trigger] entries[i]).0, (#[trigger] entries[j]).0)
            < 0
}

/// Whether two values are the same, compared deeply.
#[verifier::loop_isolation(false)]
pub fn eq_value(a: &XffValue, b: &XffValue) -> (r: bool)
    ensures
        r == (a@ == b@),
    decreases *a,
{
    match (a, b) {
        (XffValue::String(x), XffValue::String(y)) => *x == *y,
        (XffValue::Number(x), XffValue::Number(y)) => x == y,
        (XffValue::Boolean(x), XffValue::Boolean(y)) => x == y,
        (XffValue::Null, XffValue::Null) => true,
        (XffValue::CommandCharacter(x), XffValue::CommandCharacter(y)) => x == y,
        (XffValue::Data(x), XffValue::Data(y)) => x == y,
        (XffValue::ArrayCmdChar(x), XffValue::ArrayCmdChar(y)) => {
            if x.len() != y.len() {
                return false;
            }
            let mut i: usize = 0;
            while i < x.len()
                invariant
                    i <= x@.len(),
                    forall|j: int| 0 <= j < i ==> x@[j] == y@[j],
                decreases x@.len() - i,
            {
                if x[i] != y[i] {
                    return false;
                }
                i = i + 1;
            }
            proof {
                assert(x@ =~= y@);
            }
            true
        },
        (XffValue::Array(x), XffValue::Array(y)) => {
            proof {
                lemma_view_values(x.values@);
                lemma_view_values(y.values@);
            }
            if x.values.len() != y.values.len() {
                return false;
            }
            let mut i: usize = 0;
            while i < x.values.len()
                invariant
                    i <= x.values@.len(),
                    forall|j: int|
                        0 <= j < i ==> view_value(#[trigger] x.values@[j]) == view_value(
                            y.values@[j],
                        ),
                decreases x.values@.len() - i,
            {
                if !eq_value(&x.values[i], &y.values[i]) {
                    return false;
                }
                i = i + 1;
            }
            proof {
                assert(view_values(x.values@) =~= view_values(y.values@));
            }
            true
        },
        (XffValue::Object(x), XffValue::Object(y)) => {
            proof {
                lemma_view_pairs(x.pairs@);
                lemma_view_pairs(y.pairs@);
            }
            if x.pairs.len() != y.pairs.len() {
                return false;
            }
            let mut i: usize = 0;
            while i < x.pairs.len()
                invariant
                    i <= x.pairs@.len(),
                    forall|j: int|
                        0 <= j < i ==> (#[trigger] x.pairs@[j]).0@ == y.pairs@[j].0@ && view_value(
                            x.pairs@[j].1,
                        ) == view_value(y.pairs@[j].1),
                decreases x.pairs@.len() - i,
            {
                let (xk, xv) = &x.pairs[i];
                let (yk, yv) = &y.pairs[i];
                if !(*xk == *yk) {
                    return false;
                }
                if !eq_value(xv, yv) {
                    return false;
                }
                i = i + 1;
            }
            proof {
                assert(view_pairs(x.pairs@) =~= view_pairs(y.pairs@));
            }
            true
        },
        _ => false,
    }
}

/// A deep copy of a value.
#[verifier::loop_isolation(false)]
pub fn clone_value(a: &XffValue) -> (r: XffValue)
    ensures
        r@ == a@,
    decreases *a,
{
    match a {
        XffValue::String(s) => XffValue::String(s.clone()),
        XffValue::Number(n) => XffValue::Number(n.clone()),
        XffValue::Boolean(b) => XffValue::Boolean(*b),
        XffValue::Null => XffValue::Null,
        XffValue::CommandCharacter(c) => XffValue::CommandCharacter(*c),
        XffValue::Data(d) => XffValue::Data(d.clone()),
        XffValue::ArrayCmdChar(cs) => {
            let mut out: Vec<CommandCharacter> = Vec::new();
            let mut i: usize = 0;
            while i < cs.len()
                invariant
                    i <= cs@.len(),
                    out@ == cs@.take(i as int),
                decreases cs@.len() - i,
            {
                out.push(cs[i]);
                proof {
                    assert(out@ =~= cs@.take(i + 1));
                }
                i = i + 1;
            }
            proof {
                assert(out@ =~= cs@);
            }
            XffValue::ArrayCmdChar(out)
        },
        XffValue::Array(x) => {
            proof {
                lemma_view_values(x.values@);
            }
            let mut out: Vec<XffValue> = Vec::new();
            let mut i: usize = 0;
            while i < x.values.len()
                invariant
                    i <= x.values@.len(),
                    out@.len() == i,
                    forall|j: int|
                        0 <= j < i ==> view_value(#[trigger] out@[j]) == view_value(x.values@[j]),
                decreases x.values@.len() - i,
            {
                out.push(clone_value(&x.values[i]));
                i = i + 1;
            }
            proof {
                lemma_view_values(out@);
                assert(view_values(out@) =~= view_values(x.values@));
            }
            XffValue::Array(Array { values: out })
        },
        XffValue::Object(x) => {
            proof {
                lemma_view_pairs(x.pairs@);
            }
            let mut out: Vec<(String, XffValue)> = Vec::new();
            let mut i: usize = 0;
            while i < x.pairs.len()
                invariant
                    i <= x.pairs@.len(),
                    out@.len() == i,
                    forall|j: int|
                        0 <= j < i ==> (#[trigger] out@[j]).0@ == x.pairs@[j].0@ && view_value(
                            out@[j].1,
                        ) == view_value(x.pairs@[j].1),
                decreases x.pairs@.len() - i,
            {
                let (k, v) = &x.pairs[i];
                out.push((k.clone(), clone_value(v)));
                i = i + 1;
            }
            proof {
                lemma_view_pairs(out@);
                assert(view_pairs(out@) =~= view_pairs(x.pairs@));
            }
            XffValue::Object(Object { pairs: out })
        },
    }
}

impl Clone for XffValue {
    fn clone(&self) -> (r: Self)
        ensures
            r@ == self@,
    {
        clone_value(self)
    }
}

impl PartialEq for XffValue {
    fn eq(&self, other: &Self) -> (r: bool) {
        eq_value(self, other)
    }
}

impl vstd::std_specs::cmp::PartialEqSpecImpl for XffValue {
    open spec fn obeys_eq_spec() -> bool {
        true
    }

    open spec fn eq_spec(&self, other: &Self) -> bool {
        self@ == other@
    }
}

impl Default for XffValue {
    fn default() -> (r: Self)
        ensures
            r@ == SpecValue::String(Seq::<char>::empty()),
    {
        XffValue::String(String::new())
    }
}

impl From<String> for XffValue {
    fn from(c: String) -> (r: Self) {
        XffValue::String(c)
    }
}

impl vstd::std_specs::convert::FromSpecImpl<String> for XffValue {
    open spec fn obeys_from_spec() -> bool {
        true
    }

    open spec fn from_spec(c: String) -> Self {
        XffValue::String(c)
    }
}

impl From<Number> for XffValue {
    fn from(c: Number) -> (r: Self) {
        XffValue::Number(c)
    }
}

impl vstd::std_specs::convert::FromSpecImpl<Number> for XffValue {
    open spec fn obeys_from_spec() -> bool {
        true
    }

    open spec fn from_spec(c: Number) -> Self {
        XffValue::Number(c)
    }
}

impl From<Array> for XffValue {
    fn from(c: Array) -> (r: Self) {
        XffValue::Array(c)
    }
}

impl vstd::std_specs::convert::FromSpecImpl<Array> for XffValue {
    open spec fn obeys_from_spec() -> bool {
        true
    }

    open spec fn from_spec(c: Array) -> Self {
        XffValue::Array(c)
    }
}

impl From<Object> for XffValue {
    fn from(c: Object) -> (r: Self) {
        XffValue::Object(c)
    }
}

impl vstd::std_specs::convert::FromSpecImpl<Object> for XffValue {
    open spec fn obeys_from_spec() -> bool {
        true
    }

    open spec fn from_spec(c: Object) -> Self {
        XffValue::Object(c)
    }
}

impl From<Data> for XffValue {
    fn from(c: Data) -> (r: Self) {
        XffValue::Data(c)
    }
}

impl vstd::std_specs::convert::FromSpecImpl<Data> for XffValue {
    open spec fn obeys_from_spec() -> bool {
        true
    }

    open spec fn from_spec(c: Data) -> Self {
        XffValue::Data(c)
    }
}

impl From<CommandCharacter> for XffValue {
    fn from(c: CommandCharacter) -> (r: Self) {
        XffValue::CommandCharacter(c)
    }
}

impl vstd::std_specs::convert::FromSpecImpl<CommandCharacter> for XffValue {
    open spec fn obeys_from_spec() -> bool {
        true
    }

    open spec fn from_spec(c: CommandCharacter) -> Self {
        XffValue::CommandCharacter(c)
    }
}

impl From<bool> for XffValue {
    fn from(c: bool) -> (r: Self) {
        XffValue::Boolean(c)
    }
}

impl vstd::std_specs::convert::FromSpecImpl<bool> for XffValue {
    open spec fn obeys_from_spec() -> bool {
        true
    }

    open spec fn from_spec(c: bool) -> Self {
        XffValue::Boolean(c)
    }
}

impl From<usize> for XffValue {
    fn from(c: usize) -> (r: Self) {
        XffValue::Number(Number::Unsigned(c))
    }
}

impl vstd::std_specs::convert::FromSpecImpl<usize> for XffValue {
    open spec fn obeys_from_spec() -> bool {
        true
    }

    open spec fn from_spec(c: usize) -> Self {
        XffValue::Number(Number::Unsigned(c))
    }
}

impl From<isize> for XffValue {
    fn from(c: isize) -> (r: Self) {
        XffValue::Number(Number::Integer(c))
    }
}

impl vstd::std_specs::convert::FromSpecImpl<isize> for XffValue {
    open spec fn obeys_from_spec() -> bool {
        true
    }

    open spec fn from_spec(c: isize) -> Self {
        XffValue::Number(Number::Integer(c))
    }
}

impl From<u8> for XffValue {
    fn from(c: u8) -> (r: Self) {
        XffValue::Number(Number::Unsigned(c as usize))
    }
}

impl vstd::std_specs::convert::FromSpecImpl<u8> for XffValue {
    open spec fn obeys_from_spec() -> bool {
        true
    }

    open spec fn from_spec(c: u8) -> Self {
        XffValue::Number(Number::Unsigned(c as usize))
    }
}

impl From<u16> for XffValue {
    fn from(c: u16) -> (r: Self) {
        XffValue::Number(Number::Unsigned(c as usize))
    }
}

impl vstd::std_specs::convert::FromSpecImpl<u16> for XffValue {
    open spec fn obeys_from_spec() -> bool {
        true
    }

    open spec fn from_spec(c: u16) -> Self {
        XffValue::Number(Number::Unsigned(c as usize))
    }
}

impl From<u32> for XffValue {
    fn from(c: u32) -> (r: Self) {
        XffValue::Number(Number::Unsigned(c as usize))
    }
}

impl vstd::std_specs::convert::FromSpecImpl<u32> for XffValue {
    open spec fn obeys_from_spec() -> bool {
        true
    }

    open spec fn from_spec(c: u32) -> Self {
        XffValue::Number(Number::Unsigned(c as usize))
    }
}

impl From<i8> for XffValue {
    fn from(c: i8) -> (r: Self) {
        XffValue::Number(Number::Integer(c as isize))
    }
}

impl vstd::std_specs::convert::FromSpecImpl<i8> for XffValue {
    open spec fn obeys_from_spec() -> bool {
        true
    }

    open spec fn from_spec(c: i8) -> Self {
        XffValue::Number(Number::Integer(c as isize))
    }
}

impl From<i16> for XffValue {
    fn from(c: i16) -> (r: Self) {
        XffValue::Number(Number::Integer(c as isize))
    }
}

impl vstd::std_specs::convert::FromSpecImpl<i16> for XffValue {
    open spec fn obeys_from_spec() -> bool {
        true
    }

    open spec fn from_spec(c: i16) -> Self {
        XffValue::Number(Number::Integer(c as isize))
    }
}

impl From<i32> for XffValue {
    fn from(c: i32) -> (r: Self) {
        XffValue::Number(Number::Integer(c as isize))
    }
}

impl vstd::std_specs::convert::FromSpecImpl<i32> for XffValue {
    open spec fn obeys_from_spec() -> bool {
        true
    }

    open spec fn from_spec(c: i32) -> Self {
        XffValue::Number(Number::Integer(c as isize))
    }
}

impl From<&str> for XffValue {
    fn from(c: &str) -> (r: Self)
        ensures
            r@ == SpecValue::String(c@),
    {
        XffValue::String(c.to_owned())
    }
}

// A `String` with a given view cannot be built in specification code, so
// `from_spec` cannot name the converted value; the conversion's contract
// stands as the `ensures` on the impl above instead.
impl vstd::std_specs::convert::FromSpecImpl<&str> for XffValue {
    open spec fn obeys_from_spec() -> bool {
        false
    }

    open spec fn from_spec(c: &str) -> Self {
        XffValue::Null
    }
}

impl From<Vec<u8>> for XffValue {
    fn from(c: Vec<u8>) -> (r: Self) {
        let len = c.len();
        XffValue::Data(Data { data: c, len })
    }
}

impl vstd::std_specs::convert::FromSpecImpl<Vec<u8>> for XffValue {
    open spec fn obeys_from_spec() -> bool {
        true
    }

    open spec fn from_spec(c: Vec<u8>) -> Self {
        XffValue::Data(Data { data: c, len: c@.len() as usize })
    }
}

impl From<Vec<XffValue>> for XffValue {
    fn from(c: Vec<XffValue>) -> (r: Self) {
        XffValue::Array(Array { values: c })
    }
}

impl vstd::std_specs::convert::FromSpecImpl<Vec<XffValue>> for XffValue {
    open spec fn obeys_from_spec() -> bool {
        true
    }

    open spec fn from_spec(c: Vec<XffValue>) -> Self {
        XffValue::Array(Array { values: c })
    }
}

impl From<Vec<CommandCharacter>> for XffValue {
    fn from(c: Vec<CommandCharacter>) -> (r: Self) {
        XffValue::ArrayCmdChar(c)
    }
}

impl vstd::std_specs::convert::FromSpecImpl<Vec<CommandCharacter>> for XffValue {
    open spec fn obeys_from_spec() -> bool {
        true
    }

    open spec fn from_spec(c: Vec<CommandCharacter>) -> Self {
        XffValue::ArrayCmdChar(c)
    }
}

impl XffValue {
    /// The value's text, for the text and numeric kinds.
    pub fn into_string(&self) -> (r: Option<String>)
        ensures
            match self@ {
                SpecValue::String(t) => r is Some && r->0@ == t,
                SpecValue::Number(n) => r is Some && r->0@ == crate::value::num::num_string(n),
                _ => r is None,
            },
    {
        match self {
            XffValue::String(s) => Some(s.clone()),
            XffValue::Number(n) => Some(n.as_string()),
            _ => None,
        }
    }

    /// The number inside, when this is the numeric kind.
    pub fn into_number(&self) -> (r: Option<Number>)
        ensures
            match self@ {
                SpecValue::Number(n) => r is Some && r->0@ == n,
                _ => r is None,
            },
    {
        match self {
            XffValue::Number(n) => Some(n.clone()),
            _ => None,
        }
    }

    /// The sequence inside, when this is the array kind.
    pub fn into_array(&self) -> (r: Option<Array>)
        ensures
            match self@ {
                SpecValue::Array(items) => r is Some && r->0@ == items,
                _ => r is None,
            },
    {
        match self {
            XffValue::Array(a) => Some(a.clone()),
            _ => None,
        }
    }

    /// The mapping inside, when this is the object kind.
    pub fn into_object(&self) -> (r: Option<Object>)
        ensures
            match self@ {
                SpecValue::Object(entries) => r is Some && r->0@ == entries,
                _ => r is None,
            },
    {
        match self {
            XffValue::Object(o) => Some(o.clone()),
            _ => None,
        }
    }

    /// The blob inside, when this is the data kind.
    pub fn into_data(&self) -> (r: Option<Data>)
        ensures
            match self@ {
                SpecValue::Data(b, len) => r is Some && r->0@ == (b, len),
                _ => r is None,
            },
    {
        match self {
            XffValue::Data(d) => Some(d.clone()),
            _ => None,
        }
    }

    /// The boolean inside, when this is the boolean kind.
    pub fn into_boolean(&self) -> (r: Option<bool>)
        ensures
            match self@ {
                SpecValue::Boolean(b) => r == Some(b),
                _ => r is None,
            },
    {
        match self {
            XffValue::Boolean(b) => Some(*b),
            _ => None,
        }
    }

    /// A unit for the null kind, nothing for every other kind.
    pub fn into_null(&self) -> (r: Option<()>)
        ensures
            r is Some <==> self@ is Null,
    {
        match self {
            XffValue::Null => Some(()),
            _ => None,
        }
    }

    pub fn is_string(&self) -> (r: bool)
        ensures
            r == (self@ is String),
    {
        matches!(self, XffValue::String(_))
    }

    pub fn is_number(&self) -> (r: bool)
        ensures
            r == (self@ is Number),
    {
        matches!(self, XffValue::Number(_))
    }

    pub fn is_array(&self) -> (r: bool)
        ensures
            r == (self@ is Array),
    {
        matches!(self, XffValue::Array(_))
    }

    pub fn is_object(&self) -> (r: bool)
        ensures
            r == (self@ is Object),
    {
        matches!(self, XffValue::Object(_))
    }

    pub fn is_data(&self) -> (r: bool)
        ensures
            r == (self@ is Data),
    {
        matches!(self, XffValue::Data(_))
    }

    pub fn is_boolean(&self) -> (r: bool)
        ensures
            r == (self@ is Boolean),
    {
        matches!(self, XffValue::Boolean(_))
    }

    pub fn is_true(&self) -> (r: bool)
        ensures
            r == (self@ == SpecValue::Boolean(true)),
    {
        matches!(self, XffValue::Boolean(true))
    }

    pub fn is_false(&self) -> (r: bool)
        ensures
            r == (self@ == SpecValue::Boolean(false)),
    {
        matches!(self, XffValue::Boolean(false))
    }

    pub fn is_null(&self) -> (r: bool)
        ensures
            r == (self@ is Null),
    {
        matches!(self, XffValue::Null)
    }
}

} // verus!
