//! Text primitives: comparison, construction and number formatting over `String` and `str`,
//! whose models are sequences of characters.

use vstd::prelude::*;
use vstd::std_specs::iter::IteratorSpec;
use vstd::utf8::*;

verus! {

/// The elements of a sequence, each replaced by its model.
pub open spec fn models<T: DeepView>(s: Seq<T>) -> Seq<T::V> {
    Seq::new(s.len(), |i: int| s[i].deep_view())
}

/// Pushing an element pushes its model.
pub broadcast proof fn lemma_models_push<T: DeepView>(s: Seq<T>, t: T)
    ensures
        #[trigger] models(s.push(t)) == models(s).push(t.deep_view()),
{
    assert(models(s.push(t)) =~= models(s).push(t.deep_view()));
}

/// The model of a vector is the sequence of its elements' models.
pub broadcast proof fn lemma_vec_model<T: DeepView>(v: Vec<T>)
    ensures
        #[trigger] v.deep_view() == models(v@),
{
    assert(v.deep_view() =~= models(v@));
}

/// The values of a map, each replaced by its model.
pub open spec fn map_models<K, V: DeepView>(m: Map<K, V>) -> Map<K, V::V> {
    m.map_values(|v: V| v.deep_view())
}

/// Giving a key a value gives it the model of the value.
pub broadcast proof fn lemma_map_models_insert<K, V: DeepView>(m: Map<K, V>, k: K, v: V)
    ensures
        #[trigger] map_models(m.insert(k, v)) == map_models(m).insert(k, v.deep_view()),
{
    assert(map_models(m.insert(k, v)) =~= map_models(m).insert(k, v.deep_view()));
}

/// Removing a key removes its model.
pub broadcast proof fn lemma_map_models_remove<K, V: DeepView>(m: Map<K, V>, k: K)
    ensures
        #[trigger] map_models(m.remove(k)) == map_models(m).remove(k),
{
    assert(map_models(m.remove(k)) =~= map_models(m).remove(k));
}

/// Values that can be copied with their model.
pub trait Duplicate: DeepView + Sized {
    /// A value with the same model.
    fn duplicate(&self) -> (r: Self)
        ensures
            r.deep_view() == self.deep_view(),
    ;
}

impl Duplicate for String {
    fn duplicate(&self) -> (r: Self) {
        self.clone()
    }
}

impl Duplicate for u32 {
    fn duplicate(&self) -> (r: Self) {
        *self
    }
}

impl Duplicate for u8 {
    fn duplicate(&self) -> (r: Self) {
        *self
    }
}

impl Duplicate for u64 {
    fn duplicate(&self) -> (r: Self) {
        *self
    }
}

impl Duplicate for usize {
    fn duplicate(&self) -> (r: Self) {
        *self
    }
}

impl Duplicate for bool {
    fn duplicate(&self) -> (r: Self) {
        *self
    }
}

impl Duplicate for u16 {
    fn duplicate(&self) -> (r: Self) {
        *self
    }
}

impl<A: Duplicate, B: Duplicate> Duplicate for (A, B) {
    fn duplicate(&self) -> (r: Self) {
        (self.0.duplicate(), self.1.duplicate())
    }
}

impl Duplicate for () {
    fn duplicate(&self) -> (r: Self) {
        *self
    }
}

impl<T: Duplicate> Duplicate for Option<T> {
    fn duplicate(&self) -> (r: Self) {
        match self {
            Some(t) => Some(t.duplicate()),
            None => None,
        }
    }
}

impl<T: Duplicate> Duplicate for Vec<T> {
    fn duplicate(&self) -> (r: Self) {
        let mut out: Vec<T> = Vec::new();
        let mut i: usize = 0;
        while i < self.len()
            invariant
                i <= self@.len(),
                out@.len() == i,
                forall|k: int| 0 <= k < i ==> (#[trigger] out@[k]).deep_view() == self@[k].deep_view(),
            decreases self@.len() - i,
        {
            out.push(self[i].duplicate());
            i += 1;
        }
        proof {
            assert(out.deep_view() =~= self.deep_view());
        }
        out
    }
}

/// `String::push` appends one character.
pub assume_specification[ String::push ](s: &mut String, c: char)
    ensures
        final(s)@ == old(s)@.push(c),
;

/// `String::push_str` appends all characters of a string slice.
pub assume_specification[ String::push_str ](s: &mut String, t: &str)
    ensures
        final(s)@ == old(s)@ + t@,
;

/// `char::from_u32` gives the character of a Unicode scalar value, and nothing for any other
/// number.
pub assume_specification[ char::from_u32 ](v: u32) -> (c: Option<char>)
    ensures
        c == (if is_scalar(v) {
            Some(v as char)
        } else {
            None
        }),
;

/// Whether a character has the Unicode property White_Space.
pub uninterp spec fn white_space(c: char) -> bool;

/// `char::is_whitespace` tells whether a character has the property White_Space. The property is
/// fixed by the character.
pub assume_specification[ char::is_whitespace ](c: char) -> (r: bool)
    ensures
        r == white_space(c),
;

/// A text without any character but white space.
pub open spec fn blank(s: Seq<char>) -> bool {
    forall|i: int| 0 <= i < s.len() ==> white_space(#[trigger] s[i])
}

/// Whether a text has no character but white space.
pub fn is_blank(s: &str) -> (r: bool)
    ensures
        r == blank(s@),
{
    let chars = chars_of(s);
    for i in 0..chars.len()
        invariant
            chars@ == s@,
            forall|k: int| 0 <= k < i ==> white_space(#[trigger] chars@[k]),
    {
        if !chars[i].is_whitespace() {
            proof {
                assert(!white_space(s@[i as int]));
            }
            return false;
        }
    }
    true
}

/// What `String::from_utf8_lossy` makes of bytes.
pub uninterp spec fn lossy_text(bytes: Seq<u8>) -> Seq<char>;

/// `String::from_utf8_lossy`. Its result is fixed by the bytes; well-formed UTF-8 is decoded, and
/// what replaces ill-formed sequences is left open.
#[verifier::external_body]
pub(crate) fn lossy_string(bytes: &[u8]) -> (r: String)
    ensures
        r@ == lossy_text(bytes@),
        valid_utf8(bytes@) ==> r@ == decode_utf8(bytes@),
{
    String::from_utf8_lossy(bytes).into_owned()
}

/// What `str::to_lowercase` makes of a text.
pub uninterp spec fn lowercase_text(s: Seq<char>) -> Seq<char>;

/// `str::to_lowercase`. Its result is fixed by the text; which characters have a lower case is left
/// open.
#[verifier::external_body]
pub(crate) fn lowercase(s: &str) -> (r: String)
    ensures
        r@ == lowercase_text(s@),
{
    s.to_lowercase()
}

/// Whether two strings hold the same characters.
pub fn str_eq(a: &str, b: &str) -> (r: bool)
    ensures
        r == (a@ == b@),
{
    let x = a.as_bytes();
    let y = b.as_bytes();
    proof {
        encode_utf8_decode_utf8(a@);
        encode_utf8_decode_utf8(b@);
    }
    if x.len() != y.len() {
        return false;
    }
    let mut i: usize = 0;
    while i < x.len()
        invariant
            x@ == encode_utf8(a@),
            y@ == encode_utf8(b@),
            x@.len() == y@.len(),
            i <= x@.len(),
            forall|k: int| 0 <= k < i ==> x@[k] == y@[k],
        decreases x@.len() - i,
    {
        if x[i] != y[i] {
            return false;
        }
        i += 1;
    }
    assert(x@ =~= y@);
    true
}

/// The characters of a string, in order.
pub fn chars_of(s: &str) -> (r: Vec<char>)
    ensures
        r@ == s@,
{
    let mut out: Vec<char> = Vec::new();
    let mut it = s.chars();
    loop
        invariant
            it.obeys_prophetic_iter_laws(),
            it.decrease() is Some,
            out@ + it.remaining() == s@,
        ensures
            out@ == s@,
        decreases it.decrease()->0,
    {
        let ghost before = it.remaining();
        match it.next() {
            Some(c) => {
                proof {
                    assert(before =~= seq![c] + before.drop_first());
                    assert(out@.push(c) + before.drop_first() =~= out@ + before);
                }
                out.push(c);
            },
            None => {
                proof {
                    assert(before.len() == 0);
                    assert(out@ + before =~= out@);
                }
                break;
            },
        }
    }
    out
}

/// The string that holds the given characters.
pub fn string_of(chars: &[char]) -> (r: String)
    ensures
        r@ == chars@,
{
    let mut out = String::new();
    let mut i: usize = 0;
    while i < chars.len()
        invariant
            i <= chars@.len(),
            out@ == chars@.take(i as int),
        decreases chars@.len() - i,
    {
        out.push(chars[i]);
        proof {
            assert(chars@.take(i as int).push(chars@[i as int]) =~= chars@.take(i + 1));
        }
        i += 1;
    }
    proof {
        assert(chars@.take(chars@.len() as int) =~= chars@);
    }
    out
}

/// The character of a digit below 16.
pub open spec fn digit_char(d: int, upper: bool) -> char {
    if d < 10 {
        (0x30 + d) as char
    } else if upper {
        (0x41 + d - 10) as char
    } else {
        (0x61 + d - 10) as char
    }
}

/// The shortest positional notation of `v`.
pub open spec fn digits_text(v: nat, radix: nat, upper: bool) -> Seq<char>
    decreases v,
    when radix >= 2
{
    if v < radix {
        seq![digit_char(v as int, upper)]
    } else {
        proof {
            assert(v / radix < v) by (nonlinear_arith)
                requires
                    v >= radix,
                    radix >= 2,
            ;
        }
        digits_text(v / radix, radix, upper).push(digit_char((v % radix) as int, upper))
    }
}

/// `s` filled up with leading zeros to `width` characters.
pub open spec fn zero_padded(s: Seq<char>, width: nat) -> Seq<char> {
    if s.len() < width {
        Seq::new((width - s.len()) as nat, |i: int| '0') + s
    } else {
        s
    }
}

/// Decimal notation.
pub open spec fn decimal_text(v: nat) -> Seq<char> {
    digits_text(v, 10, false)
}

/// Different numbers have different decimal notations.
pub proof fn lemma_decimal_injective(a: nat, b: nat)
    requires
        decimal_text(a) == decimal_text(b),
    ensures
        a == b,
    decreases a,
{
    let s = decimal_text(a);
    let t = decimal_text(b);
    lemma_digit_injective((a % 10) as int, (b % 10) as int);
    assert(s.last() == digit_char((a % 10) as int, false));
    assert(t.last() == digit_char((b % 10) as int, false));
    if a < 10 || b < 10 {
        if a >= 10 {
            assert(decimal_text(a / 10).len() > 0) by {
                reveal_with_fuel(digits_text, 2);
            }
        }
        if b >= 10 {
            assert(decimal_text(b / 10).len() > 0) by {
                reveal_with_fuel(digits_text, 2);
            }
        }
    } else {
        assert(s.drop_last() =~= decimal_text(a / 10));
        assert(t.drop_last() =~= decimal_text(b / 10));
        lemma_decimal_injective(a / 10, b / 10);
    }
}

proof fn lemma_digit_injective(a: int, b: int)
    requires
        0 <= a < 10,
        0 <= b < 10,
    ensures
        digit_char(a, false) == digit_char(b, false) ==> a == b,
{
    assert(digit_char(a, false) as int == 0x30 + a);
    assert(digit_char(b, false) as int == 0x30 + b);
}

/// Upper-case hexadecimal notation of at least `width` digits.
pub open spec fn upper_hex_text(v: nat, width: nat) -> Seq<char> {
    zero_padded(digits_text(v, 16, true), width)
}

/// Lower-case hexadecimal notation of at least `width` digits.
pub open spec fn lower_hex_text(v: nat, width: nat) -> Seq<char> {
    zero_padded(digits_text(v, 16, false), width)
}

/// The notation of a scalar value or code point, as in `U+00E5`.
pub open spec fn u_plus_text(v: nat) -> Seq<char> {
    "U+"@ + upper_hex_text(v, 4)
}

/// The character of a digit below 16.
pub fn digit_of(d: u64, upper: bool) -> (c: char)
    requires
        d < 16,
    ensures
        c == digit_char(d as int, upper),
{
    if d < 10 {
        (0x30u8 + d as u8) as char
    } else if upper {
        (0x41u8 + (d as u8 - 10u8)) as char
    } else {
        (0x61u8 + (d as u8 - 10u8)) as char
    }
}

fn digits_of(v: u64, radix: u64, upper: bool) -> (r: String)
    requires
        2 <= radix <= 16,
    ensures
        r@ == digits_text(v as nat, radix as nat, upper),
    decreases v,
{
    if v < radix {
        let mut out = String::new();
        out.push(digit_of(v, upper));
        proof {
            assert(out@ =~= seq![digit_char(v as int, upper)]);
        }
        out
    } else {
        proof {
            assert(v / radix < v) by (nonlinear_arith)
                requires
                    v >= radix,
                    radix >= 2,
            ;
        }
        let mut out = digits_of(v / radix, radix, upper);
        out.push(digit_of(v % radix, upper));
        out
    }
}

/// Appends a number in the given notation, filled up with zeros to `width` digits.
fn push_number(out: &mut String, v: u64, radix: u64, width: usize, upper: bool)
    requires
        2 <= radix <= 16,
    ensures
        final(out)@ == old(out)@ + zero_padded(
            digits_text(v as nat, radix as nat, upper),
            width as nat,
        ),
{
    let digits = digits_of(v, radix, upper);
    let chars = chars_of(digits.as_str());
    let ghost start = out@;
    if chars.len() < width {
        let fill: usize = width - chars.len();
        let mut i: usize = 0;
        while i < fill
            invariant
                i <= fill,
                out@ == start + Seq::new(i as nat, |k: int| '0'),
            decreases fill - i,
        {
            out.push('0');
            i += 1;
            proof {
                assert(out@ =~= start + Seq::new(i as nat, |k: int| '0'));
            }
        }
        out.push_str(digits.as_str());
        proof {
            assert(out@ =~= start + zero_padded(digits@, width as nat));
        }
    } else {
        out.push_str(digits.as_str());
    }
}

/// Appends a number in decimal notation.
pub fn push_decimal(out: &mut String, v: u64)
    ensures
        final(out)@ == old(out)@ + decimal_text(v as nat),
{
    push_number(out, v, 10, 0, false);
}

/// Appends a number in upper-case hexadecimal notation of at least `width` digits.
pub fn push_upper_hex(out: &mut String, v: u64, width: usize)
    ensures
        final(out)@ == old(out)@ + upper_hex_text(v as nat, width as nat),
{
    push_number(out, v, 16, width, true);
}

/// Appends a number in lower-case hexadecimal notation of at least `width` digits.
pub fn push_lower_hex(out: &mut String, v: u64, width: usize)
    ensures
        final(out)@ == old(out)@ + lower_hex_text(v as nat, width as nat),
{
    push_number(out, v, 16, width, false);
}

/// The `U+` notation of a code point.
pub fn u_plus(v: u32) -> (r: String)
    ensures
        r@ == u_plus_text(v as nat),
{
    let mut out = String::new();
    out.push_str("U+");
    push_upper_hex(&mut out, v as u64, 4);
    proof {
        assert(out@ =~= u_plus_text(v as nat));
    }
    out
}

/// Texts joined by a separator.
pub open spec fn joined(parts: Seq<Seq<char>>, separator: Seq<char>) -> Seq<char>
    decreases parts.len(),
{
    if parts.len() == 0 {
        seq![]
    } else if parts.len() == 1 {
        parts[0]
    } else {
        joined(parts.drop_last(), separator) + separator + parts.last()
    }
}

/// Texts joined by a separator.
pub fn join(parts: &Vec<String>, separator: &str) -> (r: String)
    ensures
        r@ == joined(parts.deep_view(), separator@),
{
    let mut out = String::new();
    let ghost model = parts.deep_view();
    proof {
        assert(model.take(0) =~= Seq::<Seq<char>>::empty());
    }
    for i in 0..parts.len()
        invariant
            model == parts.deep_view(),
            out@ == joined(model.take(i as int), separator@),
    {
        proof {
            assert(model.take(i + 1).drop_last() =~= model.take(i as int));
            assert(model.take(i + 1).last() == parts@[i as int]@);
        }
        if i > 0 {
            out.push_str(separator);
        }
        out.push_str(parts[i].as_str());
        proof {
            assert(out@ =~= joined(model.take(i + 1), separator@));
        }
    }
    proof {
        assert(model.take(model.len() as int) =~= model);
    }
    out
}

/// The UTF-8 bytes of two texts in a row are those of the one followed by those of the other.
pub proof fn lemma_encode_utf8_concat(a: Seq<char>, b: Seq<char>)
    ensures
        encode_utf8(a + b) == encode_utf8(a) + encode_utf8(b),
    decreases a.len(),
{
    if a.len() == 0 {
        assert(a + b =~= b);
        assert(encode_utf8(a) + encode_utf8(b) =~= encode_utf8(b));
    } else {
        assert((a + b).drop_first() =~= a.drop_first() + b);
        lemma_encode_utf8_concat(a.drop_first(), b);
        assert(encode_utf8(a + b) =~= encode_utf8(a) + encode_utf8(b));
    }
}

/// The numbers of characters.
pub open spec fn code_points(chars: Seq<char>) -> Seq<u32> {
    Seq::new(chars.len(), |i: int| chars[i] as u32)
}

/// The numbers of characters.
pub fn numbers_of(chars: &[char]) -> (r: Vec<u32>)
    ensures
        r@ == code_points(chars@),
{
    let mut out: Vec<u32> = Vec::new();
    for i in 0..chars.len()
        invariant
            out@ == code_points(chars@.take(i as int)),
    {
        out.push(chars[i] as u32);
        proof {
            assert(out@ =~= code_points(chars@.take(i + 1)));
        }
    }
    proof {
        assert(chars@.take(chars@.len() as int) =~= chars@);
    }
    out
}

} // verus!
