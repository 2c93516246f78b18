//! The typed attribute value, the untyped query-language value it is
//! converted from and to, and the conversion logic itself.
use crate::bigint::BigInt;
use crate::text::dec_rep;
use crate::text::dec_value;
use crate::text::hex_bytes;
use crate::text::hex_of;
use crate::text::is_decimal_text;
use crate::text::is_hex_text;
use crate::text::lemma_dec_round_trip;
use crate::text::lemma_hex_canonical;
use crate::text::lemma_hex_round_trip;
use crate::text::lower_hex;
use crate::ValueError;
use vstd::prelude::*;

verus! {

/// An untyped value as the external query language produces it: a literal
/// with no inherent scalar semantics beyond its shape. A float literal is
/// carried as the bit pattern of its 32-bit value; the lossy narrowing from
/// the 64-bit literal is done by the embedding layer before the value
/// reaches this library.
#[derive(Debug, PartialEq, Eq)]
pub enum UntypedValue {
    String(String),
    Int(i64),
    Float(u32),
    Bool(bool),
    List(Vec<UntypedValue>),
    Null,
}

/// A type declared by the external schema for a field: a named scalar type
/// or a list of an element type.
#[derive(Debug, PartialEq, Eq)]
pub enum SchemaType {
    Named(String),
    List(Box<SchemaType>),
}

/// A typed attribute value. A `Bytes` value renders as a `0x`-prefixed
/// lowercase hex string; a `BigInt` value renders as plain decimal. A float
/// is carried as the bit pattern of its 32-bit value.
#[derive(Debug, PartialEq, Eq)]
pub enum Value {
    String(String),
    Int(i32),
    Float(u32),
    Bool(bool),
    List(Vec<Value>),
    Null,
    Bytes(Vec<u8>),
    BigInt(BigInt),
}

/// The mathematical shape of an untyped value.
pub enum UntypedModel {
    Str(Seq<char>),
    Int(i64),
    Float(u32),
    Bool(bool),
    List(Seq<UntypedModel>),
    Null,
}

/// The mathematical shape of a declared type.
pub enum TypeModel {
    Named(Seq<char>),
    List(Box<TypeModel>),
}

/// The mathematical shape of a typed value; a `BigInt` payload is the
/// unbounded integer itself.
pub enum ValueModel {
    Str(Seq<char>),
    Int(i32),
    Float(u32),
    Bool(bool),
    List(Seq<ValueModel>),
    Null,
    Bytes(Seq<u8>),
    BigInt(int),
}

impl UntypedValue {
    /// The mathematical shape of this value.
    pub open spec fn model(self) -> UntypedModel
        decreases self,
    {
        match self {
            UntypedValue::String(s) => UntypedModel::Str(s@),
            UntypedValue::Int(i) => UntypedModel::Int(i),
            UntypedValue::Float(f) => UntypedModel::Float(f),
            UntypedValue::Bool(b) => UntypedModel::Bool(b),
            UntypedValue::List(us) => UntypedModel::List(Self::models(us@)),
            UntypedValue::Null => UntypedModel::Null,
        }
    }

    /// The mathematical shapes of a sequence of untyped values, in order.
    pub open spec fn models(us: Seq<UntypedValue>) -> Seq<UntypedModel>
        decreases us,
    {
        if us.len() == 0 {
            Seq::empty()
        } else {
            seq![us[0].model()] + Self::models(us.skip(1))
        }
    }
}

impl SchemaType {
    /// The mathematical shape of this declared type.
    pub open spec fn model(self) -> TypeModel
        decreases self,
    {
        match self {
            SchemaType::Named(n) => TypeModel::Named(n@),
            SchemaType::List(t) => TypeModel::List(Box::new((*t).model())),
        }
    }
}

impl Value {
    /// The mathematical shape of this value.
    pub open spec fn model(self) -> ValueModel
        decreases self,
    {
        match self {
            Value::String(s) => ValueModel::Str(s@),
            Value::Int(i) => ValueModel::Int(i),
            Value::Float(f) => ValueModel::Float(f),
            Value::Bool(b) => ValueModel::Bool(b),
            Value::List(vs) => ValueModel::List(Self::models(vs@)),
            Value::Null => ValueModel::Null,
            Value::Bytes(bs) => ValueModel::Bytes(bs@),
            Value::BigInt(n) => ValueModel::BigInt(n.model()),
        }
    }

    /// The mathematical shapes of a sequence of values, in order.
    pub open spec fn models(vs: Seq<Value>) -> Seq<ValueModel>
        decreases vs,
    {
        if vs.len() == 0 {
            Seq::empty()
        } else {
            seq![vs[0].model()] + Self::models(vs.skip(1))
        }
    }
}

/// The models of a sequence of untyped values, element by element.
pub proof fn lemma_untyped_models(us: Seq<UntypedValue>)
    ensures
        UntypedValue::models(us).len() == us.len(),
        forall|i: int|
            0 <= i < us.len() ==> #[trigger] UntypedValue::models(us)[i] == us[i].model(),
    decreases us,
{
    if us.len() > 0 {
        lemma_untyped_models(us.skip(1));
        assert forall|i: int| 0 <= i < us.len() implies #[trigger] UntypedValue::models(us)[i]
            == us[i].model() by {
            if i > 0 {
                assert(UntypedValue::models(us)[i] == UntypedValue::models(us.skip(1))[i - 1]);
                assert(us.skip(1)[i - 1] == us[i]);
            }
        }
    }
}

/// The models of a sequence of values, element by element.
pub proof fn lemma_value_models(vs: Seq<Value>)
    ensures
        Value::models(vs).len() == vs.len(),
        forall|i: int| 0 <= i < vs.len() ==> #[trigger] Value::models(vs)[i] == vs[i].model(),
    decreases vs,
{
    if vs.len() > 0 {
        lemma_value_models(vs.skip(1));
        assert forall|i: int| 0 <= i < vs.len() implies #[trigger] Value::models(vs)[i]
            == vs[i].model() by {
            if i > 0 {
                assert(Value::models(vs)[i] == Value::models(vs.skip(1))[i - 1]);
                assert(vs.skip(1)[i - 1] == vs[i]);
            }
        }
    }
}

/// The name of the scalar type whose values are byte sequences.
pub open spec fn bytes_type_name() -> Seq<char> {
    seq!['B', 'y', 't', 'e', 's']
}

/// The name of the scalar type whose values are arbitrary-precision
/// integers.
pub open spec fn bigint_type_name() -> Seq<char> {
    seq!['B', 'i', 'g', 'I', 'n', 't']
}

/// `s` with one optional `0x` prefix removed.
pub open spec fn strip_0x(s: Seq<char>) -> Seq<char> {
    if s.len() >= 2 && s[0] == '0' && s[1] == 'x' {
        s.skip(2)
    } else {
        s
    }
}

/// What converting the untyped value `u` against the declared type `t`
/// yields: the dispatch is by the shape of `u` and, for strings and lists,
/// by `t`. A string declared `Bytes` is hex-decoded after an optional `0x`
/// prefix is removed; a string declared `BigInt` is parsed as decimal; any
/// other string stays text verbatim. An integer literal must fit the 32-bit
/// signed range. A list is converted elementwise against the declared
/// element type, keeping the leftmost error. Every other combination of
/// shape and declared type is unsupported.
pub open spec fn from_untyped_model(u: UntypedModel, t: TypeModel) -> Result<
    ValueModel,
    ValueError,
>
    decreases u,
{
    match u {
        UntypedModel::Str(s) => match t {
            TypeModel::Named(n) => {
                if n == bytes_type_name() {
                    if is_hex_text(strip_0x(s)) {
                        Ok(ValueModel::Bytes(hex_bytes(strip_0x(s))))
                    } else {
                        Err(ValueError::InvalidHex)
                    }
                } else if n == bigint_type_name() {
                    if is_decimal_text(s) {
                        Ok(ValueModel::BigInt(dec_value(s)))
                    } else {
                        Err(ValueError::InvalidNumber)
                    }
                } else {
                    Ok(ValueModel::Str(s))
                }
            },
            TypeModel::List(_) => Err(ValueError::UnsupportedValueTypeCombination),
        },
        UntypedModel::Int(i) => if i32::MIN <= i <= i32::MAX {
            Ok(ValueModel::Int(i as i32))
        } else {
            Err(ValueError::IntOverflow)
        },
        UntypedModel::Float(f) => Ok(ValueModel::Float(f)),
        UntypedModel::Bool(b) => Ok(ValueModel::Bool(b)),
        UntypedModel::List(us) => match t {
            TypeModel::List(et) => match from_untyped_list(us, *et) {
                Ok(ws) => Ok(ValueModel::List(ws)),
                Err(e) => Err(e),
            },
            TypeModel::Named(_) => Err(ValueError::UnsupportedValueTypeCombination),
        },
        UntypedModel::Null => Ok(ValueModel::Null),
    }
}

/// Elementwise conversion of a list against the declared element type `t`,
/// keeping the leftmost error if any element fails.
pub open spec fn from_untyped_list(us: Seq<UntypedModel>, t: TypeModel) -> Result<
    Seq<ValueModel>,
    ValueError,
>
    decreases us,
{
    if us.len() == 0 {
        Ok(Seq::empty())
    } else {
        match from_untyped_model(us[0], t) {
            Err(e) => Err(e),
            Ok(w) => match from_untyped_list(us.skip(1), t) {
                Err(e) => Err(e),
                Ok(ws) => Ok(seq![w] + ws),
            },
        }
    }
}

/// The exact structural inverse used for rendering: what rendering the
/// typed value `v` as an untyped value yields. Bytes render as a
/// `0x`-prefixed lowercase hex string, big integers as plain decimal, and a
/// list renders elementwise, preserving order.
pub open spec fn to_untyped_model(v: ValueModel) -> UntypedModel
    decreases v,
{
    match v {
        ValueModel::Str(s) => UntypedModel::Str(s),
        ValueModel::Int(i) => UntypedModel::Int(i as i64),
        ValueModel::Float(f) => UntypedModel::Float(f),
        ValueModel::Bool(b) => UntypedModel::Bool(b),
        ValueModel::List(ws) => UntypedModel::List(to_untyped_models(ws)),
        ValueModel::Null => UntypedModel::Null,
        ValueModel::Bytes(bs) => UntypedModel::Str(seq!['0', 'x'] + hex_of(bs)),
        ValueModel::BigInt(n) => UntypedModel::Str(dec_rep(n)),
    }
}

/// Elementwise rendering of a sequence of typed values, in order.
pub open spec fn to_untyped_models(ws: Seq<ValueModel>) -> Seq<UntypedModel>
    decreases ws,
{
    if ws.len() == 0 {
        Seq::empty()
    } else {
        seq![to_untyped_model(ws[0])] + to_untyped_models(ws.skip(1))
    }
}

/// The renderings of a sequence of value models, element by element.
pub proof fn lemma_to_untyped_models(ws: Seq<ValueModel>)
    ensures
        to_untyped_models(ws).len() == ws.len(),
        forall|i: int|
            0 <= i < ws.len() ==> #[trigger] to_untyped_models(ws)[i] == to_untyped_model(ws[i]),
    decreases ws,
{
    if ws.len() > 0 {
        lemma_to_untyped_models(ws.skip(1));
        assert forall|i: int| 0 <= i < ws.len() implies #[trigger] to_untyped_models(ws)[i]
            == to_untyped_model(ws[i]) by {
            if i > 0 {
                assert(to_untyped_models(ws)[i] == to_untyped_models(ws.skip(1))[i - 1]);
                assert(ws.skip(1)[i - 1] == ws[i]);
            }
        }
    }
}

/// Appending an element that converts successfully extends a successful
/// elementwise conversion.
pub proof fn lemma_from_list_push(us: Seq<UntypedModel>, t: TypeModel, u: UntypedModel)
    requires
        from_untyped_list(us, t) is Ok,
        from_untyped_model(u, t) is Ok,
    ensures
        from_untyped_list(us.push(u), t) == Ok::<Seq<ValueModel>, ValueError>(
            from_untyped_list(us, t)->Ok_0.push(from_untyped_model(u, t)->Ok_0),
        ),
    decreases us,
{
    let p = us.push(u);
    if us.len() == 0 {
        assert(p[0] == u);
        assert(p.skip(1) =~= Seq::<UntypedModel>::empty());
        assert(seq![from_untyped_model(u, t)->Ok_0] + Seq::<ValueModel>::empty()
            =~= Seq::<ValueModel>::empty().push(from_untyped_model(u, t)->Ok_0));
    } else {
        assert(p[0] == us[0]);
        assert(p.skip(1) =~= us.skip(1).push(u));
        lemma_from_list_push(us.skip(1), t, u);
        let w = from_untyped_model(us[0], t)->Ok_0;
        let ws = from_untyped_list(us.skip(1), t)->Ok_0;
        let wu = from_untyped_model(u, t)->Ok_0;
        assert(seq![w] + ws.push(wu) =~= (seq![w] + ws).push(wu));
    }
}

/// If every element of a prefix converts successfully and the next element
/// fails, the whole list fails with that element's error.
pub proof fn lemma_from_list_err(us: Seq<UntypedModel>, t: TypeModel, j: int)
    requires
        0 <= j < us.len(),
        from_untyped_list(us.take(j), t) is Ok,
        from_untyped_model(us[j], t) is Err,
    ensures
        from_untyped_list(us, t) == Err::<Seq<ValueModel>, ValueError>(
            from_untyped_model(us[j], t)->Err_0,
        ),
    decreases us,
{
    if j == 0 {
        assert(us[0] == us[j]);
    } else {
        assert(us.take(j)[0] == us[0]);
        assert(from_untyped_list(us.take(j), t) is Ok);
        assert(from_untyped_model(us[0], t) is Ok);
        assert(us.take(j).skip(1) =~= us.skip(1).take(j - 1));
        assert(us.skip(1)[j - 1] == us[j]);
        lemma_from_list_err(us.skip(1), t, j - 1);
    }
}


/// Relies on `hex::decode`: it accepts exactly an even number of
/// hexadecimal digits, in either case, and returns the bytes they denote;
/// every other input is an error.
#[verifier::external_body]
fn hex_decode(s: &str) -> (r: Option<Vec<u8>>)
    ensures
        match r {
            Some(bs) => is_hex_text(s@) && bs@ == hex_bytes(s@),
            None => !is_hex_text(s@),
        },
{
    hex::decode(s).ok()
}

/// Relies on `hex::encode`: two lowercase hexadecimal digits per byte.
#[verifier::external_body]
fn hex_encode(bytes: &[u8]) -> (r: String)
    ensures
        r@ == hex_of(bytes@),
{
    hex::encode(bytes)
}

/// Removes one optional `0x` prefix from `s`.
fn strip_hex_prefix(s: &str) -> (r: &str)
    ensures
        r@ == strip_0x(s@),
{
    let n = s.unicode_len();
    if n >= 2 && s.get_char(0) == '0' && s.get_char(1) == 'x' {
        s.substring_char(2, n)
    } else {
        s
    }
}

impl Value {
    /// Converts an untyped query value against the type the schema declares
    /// for it. Exactly the inputs the dispatch of `from_untyped_model`
    /// accepts convert successfully, and a rejected input reports the error
    /// that function gives.
    #[verifier::loop_isolation(false)]
    pub fn from_query_value(value: &UntypedValue, ty: &SchemaType) -> (r: Result<Value, ValueError>)
        ensures
            match r {
                Ok(v) => from_untyped_model(value.model(), ty.model()) == Ok::<
                    ValueModel,
                    ValueError,
                >(v.model()),
                Err(e) => from_untyped_model(value.model(), ty.model()) == Err::<
                    ValueModel,
                    ValueError,
                >(e),
            },
        decreases value,
    {
        match (value, ty) {
            (UntypedValue::String(s), SchemaType::Named(n)) => {
                let bytes_name = String::from_str("Bytes");
                let bigint_name = String::from_str("BigInt");
                proof {
                    reveal_strlit("Bytes");
                    reveal_strlit("BigInt");
                    assert(bytes_name@ =~= bytes_type_name());
                    assert(bigint_name@ =~= bigint_type_name());
                }
                if *n == bytes_name {
                    match hex_decode(strip_hex_prefix(s.as_str())) {
                        Some(bs) => Ok(Value::Bytes(bs)),
                        None => Err(ValueError::InvalidHex),
                    }
                } else if *n == bigint_name {
                    match BigInt::from_str(s.as_str()) {
                        Ok(b) => Ok(Value::BigInt(b)),
                        Err(e) => Err(e),
                    }
                } else {
                    Ok(Value::String(s.clone()))
                }
            },
            (UntypedValue::Int(i), _) => {
                if *i < i32::MIN as i64 || *i > i32::MAX as i64 {
                    Err(ValueError::IntOverflow)
                } else {
                    Ok(Value::Int(*i as i32))
                }
            },
            (UntypedValue::Float(f), _) => Ok(Value::Float(*f)),
            (UntypedValue::Bool(b), _) => Ok(Value::Bool(*b)),
            (UntypedValue::Null, _) => Ok(Value::Null),
            (UntypedValue::List(us), SchemaType::List(et)) => {
                let ghost ums = UntypedValue::models(us@);
                let ghost tm = (**et).model();
                proof {
                    lemma_untyped_models(us@);
                }
                let mut out: Vec<Value> = Vec::new();
                let mut j: usize = 0;
                while j < us.len()
                    invariant
                        0 <= j <= us@.len(),
                        ums == UntypedValue::models(us@),
                        ums.len() == us@.len(),
                        forall|i: int| 0 <= i < us@.len() ==> #[trigger] ums[i] == us@[i].model(),
                        tm == (**et).model(),
                        from_untyped_list(ums.take(j as int), tm) == Ok::<
                            Seq<ValueModel>,
                            ValueError,
                        >(Value::models(out@)),
                    decreases us@.len() - j,
                {
                    let ghost old_out = out@;
                    match Self::from_query_value(&us[j], &**et) {
                        Ok(w) => {
                            proof {
                                lemma_from_list_push(ums.take(j as int), tm, ums[j as int]);
                                assert(ums.take(j as int).push(ums[j as int]) =~= ums.take(
                                    j + 1,
                                ));
                            }
                            out.push(w);
                            proof {
                                lemma_value_models(old_out);
                                lemma_value_models(out@);
                                assert(Value::models(out@) =~= Value::models(old_out).push(
                                    w.model(),
                                ));
                            }
                        },
                        Err(e) => {
                            proof {
                                lemma_from_list_err(ums, tm, j as int);
                            }
                            return Err(e);
                        },
                    }
                    j += 1;
                }
                proof {
                    assert(ums.take(us@.len() as int) =~= ums);
                }
                Ok(Value::List(out))
            },
            _ => Err(ValueError::UnsupportedValueTypeCombination),
        }
    }

    /// Renders this value as an untyped query value, the exact structural
    /// inverse of `from_query_value` per `to_untyped_model`.
    #[verifier::loop_isolation(false)]
    pub fn to_query_value(&self) -> (r: UntypedValue)
        ensures
            r.model() == to_untyped_model(self.model()),
        decreases self,
    {
        match self {
            Value::String(s) => UntypedValue::String(s.clone()),
            Value::Int(i) => UntypedValue::Int(*i as i64),
            Value::Float(f) => UntypedValue::Float(*f),
            Value::Bool(b) => UntypedValue::Bool(*b),
            Value::Null => UntypedValue::Null,
            Value::List(vs) => {
                let ghost wms = Value::models(vs@);
                proof {
                    lemma_value_models(vs@);
                    lemma_to_untyped_models(wms);
                }
                let mut out: Vec<UntypedValue> = Vec::new();
                let mut j: usize = 0;
                while j < vs.len()
                    invariant
                        0 <= j <= vs@.len(),
                        wms == Value::models(vs@),
                        wms.len() == vs@.len(),
                        forall|i: int| 0 <= i < vs@.len() ==> #[trigger] wms[i] == vs@[i].model(),
                        to_untyped_models(wms).len() == wms.len(),
                        forall|i: int|
                            0 <= i < wms.len() ==> #[trigger] to_untyped_models(wms)[i]
                                == to_untyped_model(wms[i]),
                        out@.len() == j,
                        forall|i: int|
                            0 <= i < j ==> #[trigger] out@[i].model() == to_untyped_models(wms)[i],
                    decreases vs@.len() - j,
                {
                    let w = vs[j].to_query_value();
                    out.push(w);
                    j += 1;
                }
                proof {
                    lemma_untyped_models(out@);
                    assert(UntypedValue::models(out@) =~= to_untyped_models(wms));
                }
                UntypedValue::List(out)
            },
            Value::Bytes(bs) => {
                let hex = hex_encode(bs.as_slice());
                let mut text = String::from_str("0x");
                text.append(hex.as_str());
                proof {
                    reveal_strlit("0x");
                    assert(text@ =~= seq!['0', 'x'] + hex_of(bs@));
                }
                UntypedValue::String(text)
            },
            Value::BigInt(n) => UntypedValue::String(n.to_text()),
        }
    }
}

// ---------------------------------------------------------------------------
// Round-trip laws
// ---------------------------------------------------------------------------
/// Round trip for byte values: rendering a `Bytes` value and converting the
/// rendering back against the declared type `Bytes` yields the value again,
/// for every byte sequence.
pub proof fn lemma_bytes_round_trip(bs: Seq<u8>)
    ensures
        from_untyped_model(
            to_untyped_model(ValueModel::Bytes(bs)),
            TypeModel::Named(bytes_type_name()),
        ) == Ok::<ValueModel, ValueError>(ValueModel::Bytes(bs)),
{
    lemma_hex_round_trip(bs);
    let s = seq!['0', 'x'] + hex_of(bs);
    assert(s[0] == '0' && s[1] == 'x');
    assert(s.skip(2) =~= hex_of(bs));
}

/// Round trip for big integers: rendering a `BigInt` value and converting
/// the rendering back against the declared type `BigInt` yields the value
/// again, for every integer.
pub proof fn lemma_bigint_round_trip(n: int)
    ensures
        from_untyped_model(
            to_untyped_model(ValueModel::BigInt(n)),
            TypeModel::Named(bigint_type_name()),
        ) == Ok::<ValueModel, ValueError>(ValueModel::BigInt(n)),
{
    lemma_dec_round_trip(n);
    assert(bytes_type_name().len() == 5);
    assert(bigint_type_name().len() == 6);
    assert(bigint_type_name() != bytes_type_name());
}

/// Hex decoding is case-insensitive but the canonical rendering is always
/// lowercase: a `0x`-prefixed hex string in any casing converts to the
/// bytes it denotes, and rendering those bytes yields the same string with
/// its letters folded to lowercase.
pub proof fn lemma_bytes_canonical_lowercase(s: Seq<char>)
    requires
        is_hex_text(s),
    ensures
        from_untyped_model(
            UntypedModel::Str(seq!['0', 'x'] + s),
            TypeModel::Named(bytes_type_name()),
        ) == Ok::<ValueModel, ValueError>(ValueModel::Bytes(hex_bytes(s))),
        to_untyped_model(ValueModel::Bytes(hex_bytes(s))) == UntypedModel::Str(
            seq!['0', 'x'] + lower_hex(s),
        ),
{
    lemma_hex_canonical(s);
    let t = seq!['0', 'x'] + s;
    assert(t[0] == '0' && t[1] == 'x');
    assert(t.skip(2) =~= s);
}

} // verus!
