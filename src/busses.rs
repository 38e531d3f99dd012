use vstd::prelude::*;
use vstd::string::{StrSliceExecFns, StringExecFns};

verus! {

/// The single zero bit that stands for "no value yet".
pub open spec fn default_bits() -> Seq<bool> {
    seq![false]
}

/// A text is a bit text when every character is `'0'` or `'1'`.
pub open spec fn is_bit_text(s: Seq<char>) -> bool {
    forall|i: int| 0 <= i < s.len() ==> (s[i] == '0' || s[i] == '1')
}

/// The bits that a bit text spells, in the same order.
pub open spec fn bits_of_text(s: Seq<char>) -> Seq<bool> {
    Seq::new(s.len(), |i: int| s[i] == '1')
}

/// The text of a bit vector: one `'1'` or `'0'` per bit, in order.
pub open spec fn text_of_bits(b: Seq<bool>) -> Seq<char> {
    Seq::new(b.len(), |i: int| if b[i] { '1' } else { '0' })
}

pub open spec fn not_bits(a: Seq<bool>) -> Seq<bool> {
    Seq::new(a.len(), |i: int| !a[i])
}

/// Width of a positional pairing of two vectors: the shorter one's.
pub open spec fn zip_len(a: Seq<bool>, b: Seq<bool>) -> nat {
    if a.len() <= b.len() { a.len() } else { b.len() }
}

pub open spec fn and_bits(a: Seq<bool>, b: Seq<bool>) -> Seq<bool> {
    Seq::new(zip_len(a, b), |i: int| a[i] && b[i])
}

pub open spec fn or_bits(a: Seq<bool>, b: Seq<bool>) -> Seq<bool> {
    Seq::new(zip_len(a, b), |i: int| a[i] || b[i])
}

pub open spec fn xor_bits(a: Seq<bool>, b: Seq<bool>) -> Seq<bool> {
    Seq::new(zip_len(a, b), |i: int| a[i] != b[i])
}

/// Drops every leading double-quote character.
pub open spec fn strip_leading_quotes(s: Seq<char>) -> Seq<char>
    decreases s.len(),
{
    if s.len() > 0 && s[0] == '"' {
        strip_leading_quotes(s.drop_first())
    } else {
        s
    }
}

/// Drops every trailing double-quote character.
pub open spec fn strip_trailing_quotes(s: Seq<char>) -> Seq<char>
    decreases s.len(),
{
    if s.len() > 0 && s.last() == '"' {
        strip_trailing_quotes(s.drop_last())
    } else {
        s
    }
}

/// A value text with its surrounding quote characters removed.
pub open spec fn strip_quotes(s: Seq<char>) -> Seq<char> {
    strip_trailing_quotes(strip_leading_quotes(s))
}

/// What writing the text `s` into a bus of the given width yields: the new
/// bits, or the kind of error.
pub open spec fn text_write(width: nat, s: Seq<char>) -> Result<Seq<bool>, ErrorKind> {
    let t = strip_quotes(s);
    if !is_bit_text(t) {
        Err(ErrorKind::InvalidBitText)
    } else if t.len() != width {
        Err(ErrorKind::WidthMismatch)
    } else {
        Ok(bits_of_text(t))
    }
}

/// The kinds of failure that the simulator reports.
#[derive(Debug, Clone, Copy, PartialEq, Eq, Structural)]
pub enum ErrorKind {
    MalformedIr,
    UnknownExpressionType,
    UnknownBusReferenceInInfluenceList,
    InvalidBitText,
    WidthMismatch,
    BusNotFound,
    DidNotConverge,
}

/// An error with its kind and a message for people.
#[derive(Debug, Clone)]
pub struct SimulationError {
    pub kind: ErrorKind,
    pub message: String,
}

impl SimulationError {
    pub fn new(kind: ErrorKind, message: String) -> (r: SimulationError)
        ensures
            r.kind == kind,
            r.message@ == message@,
    {
        SimulationError { kind, message }
    }

    pub fn message(&self) -> (r: &str)
        ensures
            r@ == self.message@,
    {
        self.message.as_str()
    }
}

/// A fixed-width vector of bits, most significant bit first by convention.
#[derive(Debug, Clone)]
pub struct BitBusValue {
    pub raw_value: Vec<bool>,
}

impl View for BitBusValue {
    type V = Seq<bool>;

    open spec fn view(&self) -> Seq<bool> {
        self.raw_value@
    }
}

impl PartialEq for BitBusValue {
    fn eq(&self, other: &BitBusValue) -> (r: bool)
        ensures
            r == (self@ == other@),
    {
        self.same_bits(other)
    }
}

impl vstd::std_specs::cmp::PartialEqSpecImpl for BitBusValue {
    open spec fn obeys_eq_spec() -> bool {
        true
    }

    open spec fn eq_spec(&self, other: &BitBusValue) -> bool {
        self@ == other@
    }
}

impl BitBusValue {
    /// The given bits, or the default value when none are given.
    pub fn new(value: Option<Vec<bool>>) -> (r: BitBusValue)
        ensures
            r@ == (match value {
                Some(v) => v@,
                None => default_bits(),
            }),
    {
        match value {
            Some(v) => BitBusValue { raw_value: v },
            None => BitBusValue::get_default(),
        }
    }

    pub fn get_default() -> (r: BitBusValue)
        ensures
            r@ == default_bits(),
    {
        BitBusValue { raw_value: vec![false] }
    }

    /// `n` zero bits.
    pub fn zeros(n: usize) -> (r: BitBusValue)
        ensures
            r@ == Seq::new(n as nat, |i: int| false),
    {
        let mut v: Vec<bool> = Vec::new();
        let mut i: usize = 0;
        while i < n
            invariant
                i <= n,
                v@ == Seq::new(i as nat, |k: int| false),
            decreases n - i,
        {
            v.push(false);
            i = i + 1;
        }
        BitBusValue { raw_value: v }
    }

    /// A copy of the bits.
    pub fn clone_bits(&self) -> (r: BitBusValue)
        ensures
            r@ == self@,
    {
        let mut out: Vec<bool> = Vec::new();
        let mut i: usize = 0;
        while i < self.raw_value.len()
            invariant
                i <= self@.len(),
                out@ =~= self@.subrange(0, i as int),
            decreases self@.len() - i,
        {
            out.push(self.raw_value[i]);
            i = i + 1;
        }
        assert(self@.subrange(0, i as int) =~= self@);
        BitBusValue { raw_value: out }
    }

    pub fn width(&self) -> (r: usize)
        ensures
            r == self@.len(),
    {
        self.raw_value.len()
    }

    /// Bit-for-bit equality, widths included.
    pub fn same_bits(&self, other: &BitBusValue) -> (r: bool)
        ensures
            r == (self@ == other@),
    {
        if self.raw_value.len() != other.raw_value.len() {
            return false;
        }
        let mut i: usize = 0;
        while i < self.raw_value.len()
            invariant
                self@.len() == other@.len(),
                i <= self@.len(),
                forall|k: int| 0 <= k < i ==> self@[k] == other@[k],
            decreases self@.len() - i,
        {
            if self.raw_value[i] != other.raw_value[i] {
                return false;
            }
            i = i + 1;
        }
        assert(self@ =~= other@);
        true
    }

    /// Parses a bit text; any character other than `'0'` and `'1'` is an
    /// error that names it.
    pub fn from_string(value: &str) -> (r: Result<BitBusValue, SimulationError>)
        ensures
            r is Ok <==> is_bit_text(value@),
            r matches Ok(v) ==> v@ == bits_of_text(value@),
            r matches Err(e) ==> e.kind == ErrorKind::InvalidBitText,
    {
        let n = value.unicode_len();
        let mut bits: Vec<bool> = Vec::new();
        let mut i: usize = 0;
        while i < n
            invariant
                n == value@.len(),
                i <= n,
                is_bit_text(value@.subrange(0, i as int)),
                bits@ == bits_of_text(value@.subrange(0, i as int)),
            decreases n - i,
        {
            let c = value.get_char(i);
            if c != '0' && c != '1' {
                let mut msg = String::from_str("Invalid character '");
                msg.append(value.substring_char(i, i + 1));
                msg.append("' in bit string");
                return Err(SimulationError::new(ErrorKind::InvalidBitText, msg));
            }
            bits.push(c == '1');
            i = i + 1;
            assert(bits@ =~= bits_of_text(value@.subrange(0, i as int)));
            assert(is_bit_text(value@.subrange(0, i as int))) by {
                assert forall|k: int| 0 <= k < i implies (value@.subrange(0, i as int)[k] == '0'
                    || value@.subrange(0, i as int)[k] == '1') by {
                    if k < i - 1 {
                        assert(value@.subrange(0, i as int)[k] == value@.subrange(
                            0,
                            i - 1,
                        )[k]);
                    }
                }
            }
        }
        assert(value@.subrange(0, n as int) =~= value@);
        Ok(BitBusValue { raw_value: bits })
    }

    /// Bitwise complement.
    pub fn invert(&self) -> (r: BitBusValue)
        ensures
            r@ == not_bits(self@),
    {
        let mut out: Vec<bool> = Vec::new();
        let mut i: usize = 0;
        while i < self.raw_value.len()
            invariant
                i <= self@.len(),
                out@ =~= Seq::new(i as nat, |k: int| !self@[k]),
            decreases self@.len() - i,
        {
            out.push(!self.raw_value[i]);
            i = i + 1;
        }
        BitBusValue { raw_value: out }
    }

    /// Bitwise AND, paired by position; the result is as wide as the
    /// narrower operand.
    pub fn and(&self, other: &BitBusValue) -> (r: BitBusValue)
        ensures
            r@ == and_bits(self@, other@),
    {
        let n = if self.raw_value.len() <= other.raw_value.len() {
            self.raw_value.len()
        } else {
            other.raw_value.len()
        };
        let mut out: Vec<bool> = Vec::new();
        let mut i: usize = 0;
        while i < n
            invariant
                n == zip_len(self@, other@),
                i <= n,
                out@ =~= Seq::new(i as nat, |k: int| self@[k] && other@[k]),
            decreases n - i,
        {
            out.push(self.raw_value[i] && other.raw_value[i]);
            i = i + 1;
        }
        BitBusValue { raw_value: out }
    }

    /// Bitwise OR, paired by position; the result is as wide as the
    /// narrower operand.
    pub fn or(&self, other: &BitBusValue) -> (r: BitBusValue)
        ensures
            r@ == or_bits(self@, other@),
    {
        let n = if self.raw_value.len() <= other.raw_value.len() {
            self.raw_value.len()
        } else {
            other.raw_value.len()
        };
        let mut out: Vec<bool> = Vec::new();
        let mut i: usize = 0;
        while i < n
            invariant
                n == zip_len(self@, other@),
                i <= n,
                out@ =~= Seq::new(i as nat, |k: int| self@[k] || other@[k]),
            decreases n - i,
        {
            out.push(self.raw_value[i] || other.raw_value[i]);
            i = i + 1;
        }
        BitBusValue { raw_value: out }
    }

    /// Bitwise XOR, paired by position; the result is as wide as the
    /// narrower operand.
    pub fn xor(&self, other: &BitBusValue) -> (r: BitBusValue)
        ensures
            r@ == xor_bits(self@, other@),
    {
        let n = if self.raw_value.len() <= other.raw_value.len() {
            self.raw_value.len()
        } else {
            other.raw_value.len()
        };
        let mut out: Vec<bool> = Vec::new();
        let mut i: usize = 0;
        while i < n
            invariant
                n == zip_len(self@, other@),
                i <= n,
                out@ =~= Seq::new(i as nat, |k: int| self@[k] != other@[k]),
            decreases n - i,
        {
            out.push(self.raw_value[i] != other.raw_value[i]);
            i = i + 1;
        }
        BitBusValue { raw_value: out }
    }

    /// The value as text, one `'1'` or `'0'` per bit.
    pub fn to_string(&self) -> (r: String)
        ensures
            r@ == text_of_bits(self@),
    {
        let mut s = String::new();
        let mut i: usize = 0;
        while i < self.raw_value.len()
            invariant
                i <= self@.len(),
                s@ =~= text_of_bits(self@.subrange(0, i as int)),
            decreases self@.len() - i,
        {
            proof {
                reveal_strlit("1");
                reveal_strlit("0");
            }
            if self.raw_value[i] {
                s.append("1");
            } else {
                s.append("0");
            }
            i = i + 1;
        }
        assert(self@.subrange(0, i as int) =~= self@);
        s
    }
}

/// Values that render as change-dump text.
pub trait VcdValue {
    fn get_vcd_repr(&self) -> String;
}

/// Values that a bus can hold.
pub trait BusValueTrait: VcdValue + Sized {
    fn get_default() -> Self;
}

impl VcdValue for BitBusValue {
    fn get_vcd_repr(&self) -> String {
        self.to_string()
    }
}

impl BusValueTrait for BitBusValue {
    fn get_default() -> Self {
        BitBusValue::get_default()
    }
}

/// What a bus holds, as mathematics: its name (once stamped), its bits, and
/// the positions of the buses that it influences.
pub struct BusView {
    pub name: Option<Seq<char>>,
    pub value: Seq<bool>,
    pub influences: Seq<usize>,
}

/// A named, fixed-width storage cell with the buses it influences.
#[derive(Debug, Clone)]
pub struct BitBus {
    pub id: Option<String>,
    pub value: BitBusValue,
    pub influence_list: Vec<usize>,
}

impl View for BitBus {
    type V = BusView;

    open spec fn view(&self) -> BusView {
        BusView {
            name: match self.id {
                Some(s) => Some(s@),
                None => None,
            },
            value: self.value@,
            influences: self.influence_list@,
        }
    }
}

/// Removes the double quotes around a value text.
fn strip_quotes_str(value: &str) -> (r: &str)
    ensures
        r@ == strip_quotes(value@),
{
    let n = value.unicode_len();
    let mut lo: usize = 0;
    assert(value@.subrange(0, n as int) =~= value@);
    while lo < n && value.get_char(lo) == '"'
        invariant
            n == value@.len(),
            lo <= n,
            strip_leading_quotes(value@) == strip_leading_quotes(value@.subrange(lo as int, n as int)),
        decreases n - lo,
    {
        assert(value@.subrange(lo as int, n as int).drop_first() =~= value@.subrange(lo + 1, n as int));
        lo = lo + 1;
    }
    let ghost lead = value@.subrange(lo as int, n as int);
    assert(strip_leading_quotes(value@) == lead);
    let mut hi: usize = n;
    while hi > lo && value.get_char(hi - 1) == '"'
        invariant
            n == value@.len(),
            lo <= hi <= n,
            lead == value@.subrange(lo as int, n as int),
            strip_trailing_quotes(lead) == strip_trailing_quotes(value@.subrange(lo as int, hi as int)),
        decreases hi - lo,
    {
        assert(value@.subrange(lo as int, hi as int).drop_last() =~= value@.subrange(lo as int, hi - 1));
        hi = hi - 1;
    }
    assert(strip_trailing_quotes(value@.subrange(lo as int, hi as int)) == value@.subrange(
        lo as int,
        hi as int,
    ));
    value.substring_char(lo, hi)
}

impl BitBus {
    /// A one-bit bus holding zero, with no name and no influences.
    pub fn new() -> (r: BitBus)
        ensures
            r@.name is None,
            r@.value == default_bits(),
            r@.influences.len() == 0,
    {
        BitBus { id: None, value: BitBusValue::get_default(), influence_list: Vec::new() }
    }

    /// Resets the value to `dimension` zero bits.
    pub fn set_dimension(&mut self, dimension: usize)
        ensures
            final(self)@ == (BusView {
                value: Seq::new(dimension as nat, |i: int| false),
                ..old(self)@
            }),
    {
        self.value = BitBusValue::zeros(dimension);
    }

    pub fn get_id(&self) -> (r: &Option<String>)
        ensures
            r == &self.id,
    {
        &self.id
    }

    pub fn set_id(&mut self, id: String)
        ensures
            final(self)@ == (BusView { name: Some(id@), ..old(self)@ }),
    {
        self.id = Some(id);
    }

    pub fn get_value(&self) -> (r: &BitBusValue)
        ensures
            r@ == self@.value,
    {
        &self.value
    }

    pub fn set_value(&mut self, value: BitBusValue)
        ensures
            final(self)@ == (BusView { value: value@, ..old(self)@ }),
    {
        self.value = value;
    }

    /// The pattern that accepted value texts follow.
    pub fn get_valid_values(&self) -> (r: Vec<String>)
        ensures
            r@.len() == 1,
            r@[0]@ == "[01]+"@,
    {
        let mut v: Vec<String> = Vec::new();
        v.push(String::from_str("[01]+"));
        v
    }

    /// Writes a value given as text. Surrounding double quotes are removed
    /// first; the rest must be a bit text exactly as wide as the bus.
    pub fn insert_value(&mut self, value: &str) -> (r: Result<(), SimulationError>)
        ensures
            match text_write(old(self)@.value.len(), value@) {
                Ok(b) => r is Ok && final(self)@ == (BusView { value: b, ..old(self)@ }),
                Err(k) => r matches Err(e) && e.kind == k && *final(self) == *old(self),
            },
    {
        let clean = strip_quotes_str(value);
        match BitBusValue::from_string(clean) {
            Err(e) => {
                let mut msg = String::from_str("Invalid value \"");
                msg.append(value);
                msg.append("\". Valid values are: [01]+");
                Err(SimulationError::new(e.kind, msg))
            },
            Ok(v) => {
                let width = self.value.width();
                if v.width() != width {
                    let mut msg = String::from_str("Invalid value \"");
                    msg.append(value);
                    msg.append("\". The value must have ");
                    let w = width.to_string();
                    msg.append(w.as_str());
                    msg.append(" bits.");
                    Err(SimulationError::new(ErrorKind::WidthMismatch, msg))
                } else {
                    self.value = v;
                    Ok(())
                }
            },
        }
    }
}

/// A bus of a circuit.
pub trait BusTrait {
    type Value;

    fn get_id(&self) -> &Option<String>;

    fn set_id(&mut self, id: String);

    fn get_value(&self) -> &Self::Value;

    fn set_value(&mut self, value: Self::Value);

    fn get_valid_values(&self) -> Vec<String>;

    fn insert_value(&mut self, value: &str) -> Result<(), SimulationError>;
}

impl BusTrait for BitBus {
    type Value = BitBusValue;

    fn get_id(&self) -> &Option<String> {
        BitBus::get_id(self)
    }

    fn set_id(&mut self, id: String) {
        BitBus::set_id(self, id)
    }

    fn get_value(&self) -> &BitBusValue {
        BitBus::get_value(self)
    }

    fn set_value(&mut self, value: BitBusValue) {
        BitBus::set_value(self, value)
    }

    fn get_valid_values(&self) -> Vec<String> {
        BitBus::get_valid_values(self)
    }

    fn insert_value(&mut self, value: &str) -> Result<(), SimulationError> {
        BitBus::insert_value(self, value)
    }
}

/// Reading in text: a bit text with no quote around it reads as itself.
pub proof fn lemma_text_round_trip(s: Seq<char>)
    requires
        is_bit_text(s),
    ensures
        text_of_bits(bits_of_text(s)) == s,
{
    assert(text_of_bits(bits_of_text(s)) =~= s);
}

/// AND, OR and XOR do not depend on the order of their operands.
pub proof fn lemma_bit_ops_commute(a: Seq<bool>, b: Seq<bool>)
    ensures
        and_bits(a, b) == and_bits(b, a),
        or_bits(a, b) == or_bits(b, a),
        xor_bits(a, b) == xor_bits(b, a),
{
    assert(and_bits(a, b) =~= and_bits(b, a));
    assert(or_bits(a, b) =~= or_bits(b, a));
    assert(xor_bits(a, b) =~= xor_bits(b, a));
}

} // verus!
