use vstd::prelude::*;
use vstd::arithmetic::power2::pow2;
use vstd::bits::lemma_u64_shr_is_div;

verus! {

/// The position and size of an element.
#[derive(Debug, Clone, Copy, PartialEq, Eq, Structural)]
pub struct Rect {
    pub x: i32,
    pub y: i32,
    pub width: i32,
    pub height: i32,
}

impl Rect {
    /// The empty rectangle at the origin.
    pub fn zero() -> (r: Rect)
        ensures
            r == (Rect { x: 0, y: 0, width: 0, height: 0 }),
    {
        Rect { x: 0, y: 0, width: 0, height: 0 }
    }
}

/// A value that can be used as a property or style attribute.
///
/// A float is held as the bit pattern of an IEEE-754 binary64 number.
/// A custom value is an opaque handle whose meaning belongs to the caller.
#[derive(Debug, Clone)]
pub enum Value {
    Boolean(bool),
    Integer(i32),
    Float(u64),
    String(String),
    Any(u64),
}

pub open spec fn float_exponent(b: u64) -> int {
    ((b >> 52u64) & 0x7ffu64) as int
}

pub open spec fn float_fraction(b: u64) -> int {
    (b & 0xf_ffff_ffff_ffffu64) as int
}

pub open spec fn float_negative(b: u64) -> bool {
    (b >> 63u64) == 1
}

pub open spec fn float_is_nan(b: u64) -> bool {
    float_exponent(b) == 0x7ff && float_fraction(b) != 0
}

/// Both bit patterns encode a zero (of either sign).
pub open spec fn float_is_zero(b: u64) -> bool {
    float_exponent(b) == 0 && float_fraction(b) == 0
}

/// IEEE-754 equality: NaN equals nothing, the two zeros are equal.
pub open spec fn float_eq(a: u64, b: u64) -> bool {
    !float_is_nan(a) && !float_is_nan(b) && (a == b || (float_is_zero(a) && float_is_zero(b)))
}

/// The magnitude of a finite float below 2^31, rounded toward zero.
pub open spec fn float_trunc_magnitude(b: u64) -> int {
    if float_exponent(b) < 1023 {
        0
    } else {
        (float_fraction(b) + pow2(52)) / pow2((1075 - float_exponent(b)) as nat) as int
    }
}

/// A float converted to `i32`: rounded toward zero, saturating, NaN gives zero.
pub open spec fn float_to_i32(b: u64) -> i32 {
    if float_is_nan(b) {
        0
    } else if float_exponent(b) >= 1054 {
        if float_negative(b) {
            i32::MIN
        } else {
            i32::MAX
        }
    } else if float_negative(b) {
        (-float_trunc_magnitude(b)) as i32
    } else {
        float_trunc_magnitude(b) as i32
    }
}

/// Equality of values: only within one variant; custom values never compare equal.
pub open spec fn value_eq(a: Value, b: Value) -> bool {
    match (a, b) {
        (Value::Boolean(x), Value::Boolean(y)) => x == y,
        (Value::Integer(x), Value::Integer(y)) => x == y,
        (Value::Float(x), Value::Float(y)) => float_eq(x, y),
        (Value::String(x), Value::String(y)) => x@ == y@,
        _ => false,
    }
}

pub(crate) fn float_bits_eq(a: u64, b: u64) -> (r: bool)
    ensures
        r == float_eq(a, b),
{
    let a_exp = (a >> 52u64) & 0x7ffu64;
    let b_exp = (b >> 52u64) & 0x7ffu64;
    let a_frac = a & 0xf_ffff_ffff_ffffu64;
    let b_frac = b & 0xf_ffff_ffff_ffffu64;
    let a_nan = a_exp == 0x7ff && a_frac != 0;
    let b_nan = b_exp == 0x7ff && b_frac != 0;
    let a_zero = a_exp == 0 && a_frac == 0;
    let b_zero = b_exp == 0 && b_frac == 0;
    !a_nan && !b_nan && (a == b || (a_zero && b_zero))
}

/// Converts a float to `i32` as Rust's `as` does.
pub(crate) fn float_bits_to_i32(b: u64) -> (r: i32)
    ensures
        r == float_to_i32(b),
{
    let exp = (b >> 52u64) & 0x7ffu64;
    let frac = b & 0xf_ffff_ffff_ffffu64;
    let negative = (b >> 63u64) == 1;
    if exp == 0x7ff && frac != 0 {
        0
    } else if exp >= 1054 {
        if negative {
            i32::MIN
        } else {
            i32::MAX
        }
    } else if exp < 1023 {
        0
    } else {
        assert(frac <= 0xf_ffff_ffff_ffffu64) by (bit_vector)
            requires frac == b & 0xf_ffff_ffff_ffffu64;
        let m = frac + 0x10_0000_0000_0000u64;
        let shift = 1075 - exp;
        assert(m >> shift < 0x8000_0000u64) by (bit_vector)
            requires m < 0x20_0000_0000_0000u64, 22u64 <= shift;
        let mag = m >> shift;
        proof {
            lemma_u64_shr_is_div(m, shift);
            assert(pow2(52) == 0x10000000000000) by {
                vstd::arithmetic::power2::lemma2_to64_rest();
            }
            assert(float_fraction(b) == frac as int);
            assert(float_exponent(b) == exp as int);
            assert(m as int == float_fraction(b) + pow2(52));
            assert((1075 - float_exponent(b)) as nat == shift as nat);
            assert(mag as nat == m as nat / pow2(shift as nat));
            assert(mag as int == float_trunc_magnitude(b));
        }
        if negative {
            -(mag as i32)
        } else {
            mag as i32
        }
    }
}

impl Value {
    /// Equality within one variant; custom values never compare equal.
    pub fn equals(&self, o: &Value) -> (r: bool)
        ensures
            r == value_eq(*self, *o),
    {
        match self {
            Value::Boolean(x) => match o {
                Value::Boolean(y) => *x == *y,
                _ => false,
            },
            Value::Integer(x) => match o {
                Value::Integer(y) => *x == *y,
                _ => false,
            },
            Value::Float(x) => match o {
                Value::Float(y) => float_bits_eq(*x, *y),
                _ => false,
            },
            Value::String(x) => match o {
                Value::String(y) => x.eq(y),
                _ => false,
            },
            Value::Any(_) => false,
        }
    }

    /// A copy of this value.
    pub fn duplicate(&self) -> (r: Value)
        ensures
            r == *self,
    {
        match self {
            Value::Boolean(b) => Value::Boolean(*b),
            Value::Integer(i) => Value::Integer(*i),
            Value::Float(f) => Value::Float(*f),
            Value::String(s) => Value::String(s.clone()),
            Value::Any(a) => Value::Any(*a),
        }
    }

    /// Tries to convert this value into the type.
    pub fn get_value<V: PropertyValue>(&self) -> (r: Option<V>)
        ensures
            r == V::from_value(*self),
    {
        V::convert_from(self)
    }

    /// The handle of a custom value.
    pub fn get_custom_value(&self) -> (r: Option<u64>)
        ensures
            r == (match *self {
                Value::Any(h) => Some(h),
                _ => None,
            }),
    {
        match self {
            Value::Any(h) => Some(*h),
            _ => None,
        }
    }
}

impl PartialEq for Value {
    fn eq(&self, o: &Value) -> (r: bool) {
        self.equals(o)
    }
}

impl vstd::std_specs::cmp::PartialEqSpecImpl for Value {
    open spec fn obeys_eq_spec() -> bool {
        true
    }

    open spec fn eq_spec(&self, o: &Value) -> bool {
        value_eq(*self, *o)
    }
}

/// A non-standard type that can be used as a property value: the tree keeps the
/// handle that the value gives, as [`Value::Any`]; the caller keeps the value.
pub trait CustomValue {
    fn handle(&self) -> u64;
}

/// A type that can be stored as a property.
pub trait PropertyValue: Sized {
    /// What `convert_from` gives for a value.
    spec fn from_value(v: Value) -> Option<Self>;

    /// What `convert_into` gives for this value.
    spec fn into_value(self) -> Value;

    /// Converts a value into this type.
    fn convert_from(v: &Value) -> (r: Option<Self>)
        ensures
            r == Self::from_value(*v),
    ;

    /// Converts this type into a value.
    fn convert_into(self) -> (r: Value)
        ensures
            r == self.into_value(),
    ;
}

impl PropertyValue for Value {
    open spec fn from_value(v: Value) -> Option<Value> {
        Some(v)
    }

    open spec fn into_value(self) -> Value {
        self
    }

    fn convert_from(v: &Value) -> (r: Option<Value>) {
        Some(v.duplicate())
    }

    fn convert_into(self) -> (r: Value) {
        self
    }
}

impl PropertyValue for bool {
    open spec fn from_value(v: Value) -> Option<bool> {
        match v {
            Value::Boolean(b) => Some(b),
            _ => None,
        }
    }

    open spec fn into_value(self) -> Value {
        Value::Boolean(self)
    }

    fn convert_from(v: &Value) -> (r: Option<bool>) {
        match v {
            Value::Boolean(b) => Some(*b),
            _ => None,
        }
    }

    fn convert_into(self) -> (r: Value) {
        Value::Boolean(self)
    }
}

impl PropertyValue for i32 {
    /// Integers as they are; floats rounded toward zero.
    open spec fn from_value(v: Value) -> Option<i32> {
        match v {
            Value::Integer(i) => Some(i),
            Value::Float(f) => Some(float_to_i32(f)),
            _ => None,
        }
    }

    open spec fn into_value(self) -> Value {
        Value::Integer(self)
    }

    fn convert_from(v: &Value) -> (r: Option<i32>) {
        match v {
            Value::Integer(i) => Some(*i),
            Value::Float(f) => Some(float_bits_to_i32(*f)),
            _ => None,
        }
    }

    fn convert_into(self) -> (r: Value) {
        Value::Integer(self)
    }
}

impl PropertyValue for String {
    open spec fn from_value(v: Value) -> Option<String> {
        match v {
            Value::String(s) => Some(s),
            _ => None,
        }
    }

    open spec fn into_value(self) -> Value {
        Value::String(self)
    }

    fn convert_from(v: &Value) -> (r: Option<String>) {
        match v {
            Value::String(s) => Some(s.clone()),
            _ => None,
        }
    }

    fn convert_into(self) -> (r: Value) {
        Value::String(self)
    }
}

/// What a value is, with its string as a sequence of characters.
pub enum ValueView {
    Boolean(bool),
    Integer(i32),
    Float(u64),
    String(Seq<char>),
    Any(u64),
}

impl View for Value {
    type V = ValueView;

    open spec fn view(&self) -> ValueView {
        match *self {
            Value::Boolean(b) => ValueView::Boolean(b),
            Value::Integer(i) => ValueView::Integer(i),
            Value::Float(f) => ValueView::Float(f),
            Value::String(s) => ValueView::String(s@),
            Value::Any(h) => ValueView::Any(h),
        }
    }
}

/// No two entries of a property list share a key.
pub open spec fn keys_unique(m: Seq<(String, Value)>) -> bool {
    forall|a: int, b: int| 0 <= a < b < m.len() ==> m[a].0@ != m[b].0@
}

pub open spec fn has_key(m: Seq<(String, Value)>, k: Seq<char>) -> bool {
    exists|i: int| 0 <= i < m.len() && m[i].0@ == k
}

/// The value of key `k` in a property list.
pub open spec fn lookup(m: Seq<(String, Value)>, k: Seq<char>) -> Option<Value> {
    if has_key(m, k) {
        Some(m[choose|i: int| 0 <= i < m.len() && m[i].0@ == k].1)
    } else {
        None
    }
}

pub proof fn lemma_lookup_at(m: Seq<(String, Value)>, i: int)
    requires
        keys_unique(m),
        0 <= i < m.len(),
    ensures
        lookup(m, m[i].0@) == Some(m[i].1),
{
    let k = m[i].0@;
    assert(has_key(m, k));
    let j = choose|j: int| 0 <= j < m.len() && m[j].0@ == k;
    if j != i {
        assert(m[j].0@ == m[i].0@);
    }
}

/// Whether two strings hold the same characters.
pub(crate) fn str_eq(a: &str, b: &str) -> (r: bool)
    ensures
        r == (a@ == b@),
{
    let n = a.unicode_len();
    if n != b.unicode_len() {
        return false;
    }
    let mut i: usize = 0;
    while i < n
        invariant
            n == a@.len() == b@.len(),
            i <= n,
            a@.subrange(0, i as int) == b@.subrange(0, i as int),
        decreases n - i,
    {
        if a.get_char(i) != b.get_char(i) {
            return false;
        }
        i += 1;
        assert(a@.subrange(0, i as int) =~= a@.subrange(0, i - 1).push(a@[i - 1]));
        assert(b@.subrange(0, i as int) =~= b@.subrange(0, i - 1).push(b@[i - 1]));
    }
    assert(a@ =~= a@.subrange(0, n as int));
    assert(b@ =~= b@.subrange(0, n as int));
    true
}

/// A property list as a map.
pub open spec fn as_map(m: Seq<(String, Value)>) -> Map<Seq<char>, Value> {
    Map::new(|k: Seq<char>| has_key(m, k), |k: Seq<char>| lookup(m, k).unwrap())
}

/// A property list as a map of value views.
pub open spec fn view_map(m: Seq<(String, Value)>) -> Map<Seq<char>, ValueView> {
    Map::new(|k: Seq<char>| has_key(m, k), |k: Seq<char>| lookup(m, k).unwrap()@)
}

/// The index of key `k` in a property list.
pub(crate) fn find_key(m: &Vec<(String, Value)>, k: &str) -> (r: Option<usize>)
    requires
        keys_unique(m@),
    ensures
        match r {
            Some(i) => i < m@.len() && m@[i as int].0@ == k@ && lookup(m@, k@) == Some(m@[i as int].1),
            None => !has_key(m@, k@) && lookup(m@, k@) is None,
        },
{
    let mut i: usize = 0;
    while i < m.len()
        invariant
            i <= m@.len(),
            keys_unique(m@),
            forall|j: int| 0 <= j < i ==> m@[j].0@ != k@,
        decreases m@.len() - i,
    {
        if str_eq(m[i].0.as_str(), k) {
            proof {
                lemma_lookup_at(m@, i as int);
            }
            return Some(i);
        }
        i += 1;
    }
    None
}

/// The value of key `k` in a property list.
pub(crate) fn get_key(m: &Vec<(String, Value)>, k: &str) -> (r: Option<Value>)
    requires
        keys_unique(m@),
    ensures
        r == lookup(m@, k@),
{
    match find_key(m, k) {
        Some(i) => Some(m[i].1.duplicate()),
        None => None,
    }
}

/// Sets key `k` to `v` in a property list.
pub(crate) fn set_key(m: &mut Vec<(String, Value)>, k: String, v: Value)
    requires
        keys_unique(old(m)@),
    ensures
        keys_unique(final(m)@),
        forall|q: Seq<char>| #[trigger] lookup(final(m)@, q) == if q == k@ {
            Some(v)
        } else {
            lookup(old(m)@, q)
        },
        as_map(final(m)@) == as_map(old(m)@).insert(k@, v),
        view_map(final(m)@) == view_map(old(m)@).insert(k@, v@),
{
    let ghost before = m@;
    let ghost key = k@;
    set_key_inner(m, k, v);
    assert(as_map(m@) =~= as_map(before).insert(key, v)) by {
        assert forall|q: Seq<char>| #[trigger] has_key(m@, q) == (has_key(before, q) || q == key) by {
            assert(lookup(m@, q) == if q == key { Some(v) } else { lookup(before, q) });
        }
    }
    assert(view_map(m@) =~= view_map(before).insert(key, v@)) by {
        assert forall|q: Seq<char>| #[trigger] has_key(m@, q) == (has_key(before, q) || q == key) by {
            assert(lookup(m@, q) == if q == key { Some(v) } else { lookup(before, q) });
        }
    }
}

fn set_key_inner(m: &mut Vec<(String, Value)>, k: String, v: Value)
    requires
        keys_unique(old(m)@),
    ensures
        keys_unique(final(m)@),
        forall|q: Seq<char>| #[trigger] lookup(final(m)@, q) == if q == k@ {
            Some(v)
        } else {
            lookup(old(m)@, q)
        },
{
    let ghost before = m@;
    let ghost key = k@;
    match find_key(m, k.as_str()) {
        Some(i) => {
            m.set(i, (k, v));
            assert forall|x: int| 0 <= x < m@.len() implies m@[x].0@ == before[x].0@ by {
                if x != i {
                    assert(m@[x] == before[x]);
                }
            }
            assert forall|a: int, b: int| 0 <= a < b < m@.len() implies m@[a].0@ != m@[b].0@ by {
                assert(m@[a].0@ == before[a].0@);
                assert(m@[b].0@ == before[b].0@);
            }
            assert forall|q: Seq<char>| #[trigger] lookup(m@, q) == if q == key {
                Some(v)
            } else {
                lookup(before, q)
            } by {
                if q == key {
                    lemma_lookup_at(m@, i as int);
                } else {
                    if has_key(before, q) {
                        let j = choose|j: int| 0 <= j < before.len() && before[j].0@ == q;
                        lemma_lookup_at(before, j);
                        assert(m@[j] == before[j]);
                        lemma_lookup_at(m@, j);
                    } else {
                        assert forall|j: int| 0 <= j < m@.len() implies m@[j].0@ != q by {
                            if j != i {
                                assert(m@[j] == before[j]);
                            }
                        }
                    }
                }
            }
        },
        None => {
            m.push((k, v));
            let ghost n = before.len() as int;
            assert forall|a: int, b: int| 0 <= a < b < m@.len() implies m@[a].0@ != m@[b].0@ by {
                assert(m@[a] == before[a]);
                if b < n {
                    assert(m@[b] == before[b]);
                } else {
                    assert(!has_key(before, key));
                }
            }
            assert forall|q: Seq<char>| #[trigger] lookup(m@, q) == if q == key {
                Some(v)
            } else {
                lookup(before, q)
            } by {
                if q == key {
                    lemma_lookup_at(m@, n);
                } else {
                    if has_key(before, q) {
                        let j = choose|j: int| 0 <= j < before.len() && before[j].0@ == q;
                        lemma_lookup_at(before, j);
                        assert(m@[j] == before[j]);
                        lemma_lookup_at(m@, j);
                    } else {
                        assert forall|j: int| 0 <= j < m@.len() implies m@[j].0@ != q by {
                            if j < n {
                                assert(m@[j] == before[j]);
                            }
                        }
                    }
                }
            }
        },
    }
}

/// Removes key `k` from a property list.
pub(crate) fn remove_key(m: &mut Vec<(String, Value)>, k: &str)
    requires
        keys_unique(old(m)@),
    ensures
        keys_unique(final(m)@),
        forall|q: Seq<char>| #[trigger] lookup(final(m)@, q) == if q == k@ {
            None
        } else {
            lookup(old(m)@, q)
        },
        as_map(final(m)@) == as_map(old(m)@).remove(k@),
        view_map(final(m)@) == view_map(old(m)@).remove(k@),
{
    let ghost before = m@;
    remove_key_inner(m, k);
    assert(as_map(m@) =~= as_map(before).remove(k@)) by {
        assert forall|q: Seq<char>| #[trigger] has_key(m@, q) == (has_key(before, q) && q != k@) by {
            assert(lookup(m@, q) == if q == k@ { None } else { lookup(before, q) });
        }
    }
    assert(view_map(m@) =~= view_map(before).remove(k@)) by {
        assert forall|q: Seq<char>| #[trigger] has_key(m@, q) == (has_key(before, q) && q != k@) by {
            assert(lookup(m@, q) == if q == k@ { None } else { lookup(before, q) });
        }
    }
}

fn remove_key_inner(m: &mut Vec<(String, Value)>, k: &str)
    requires
        keys_unique(old(m)@),
    ensures
        keys_unique(final(m)@),
        forall|q: Seq<char>| #[trigger] lookup(final(m)@, q) == if q == k@ {
            None
        } else {
            lookup(old(m)@, q)
        },
{
    let ghost before = m@;
    match find_key(m, k) {
        Some(i) => {
            m.remove(i);
            assert forall|x: int| 0 <= x < m@.len() implies m@[x] == before[if x < i { x } else { x + 1 }] by {}
            assert forall|a: int, b: int| 0 <= a < b < m@.len() implies m@[a].0@ != m@[b].0@ by {
                let a2 = if a < i { a } else { a + 1 };
                let b2 = if b < i { b } else { b + 1 };
                assert(m@[a] == before[a2] && m@[b] == before[b2]);
            }
            assert forall|q: Seq<char>| #[trigger] lookup(m@, q) == if q == k@ {
                None
            } else {
                lookup(before, q)
            } by {
                if q == k@ {
                    assert forall|j: int| 0 <= j < m@.len() implies m@[j].0@ != q by {
                        let j2 = if j < i { j } else { j + 1 };
                        assert(m@[j] == before[j2]);
                    }
                } else if has_key(before, q) {
                    let j = choose|j: int| 0 <= j < before.len() && before[j].0@ == q;
                    lemma_lookup_at(before, j);
                    let j2 = if j < i { j } else { j - 1 };
                    assert(m@[j2] == before[j]);
                    lemma_lookup_at(m@, j2);
                } else {
                    assert forall|j: int| 0 <= j < m@.len() implies m@[j].0@ != q by {
                        let j2 = if j < i { j } else { j + 1 };
                        assert(m@[j] == before[j2]);
                    }
                }
            }
        },
        None => {},
    }
}

} // verus!
