use vstd::prelude::*;
use crate::util::{ResourceLocation, decimal, decimal_string, split_location, ascii_lower};

verus! {

/// Unicode `White_Space` characters.
pub open spec fn is_white_space(c: char) -> bool {
    let u = c as u32;
    ||| 0x09 <= u <= 0x0d
    ||| u == 0x20
    ||| u == 0x85
    ||| u == 0xa0
    ||| u == 0x1680
    ||| 0x2000 <= u <= 0x200a
    ||| u == 0x2028
    ||| u == 0x2029
    ||| u == 0x202f
    ||| u == 0x205f
    ||| u == 0x3000
}

/// Number of white-space characters at the start of `s`.
pub open spec fn leading_space(s: Seq<char>) -> nat
    decreases s.len(),
{
    if s.len() > 0 && is_white_space(s[0]) {
        1 + leading_space(s.drop_first())
    } else {
        0
    }
}

/// Number of white-space characters at the end of `s`.
pub open spec fn trailing_space(s: Seq<char>) -> nat
    decreases s.len(),
{
    if s.len() > 0 && is_white_space(s.last()) {
        1 + trailing_space(s.drop_last())
    } else {
        0
    }
}

/// `s` without white space at either end.
pub open spec fn trimmed(s: Seq<char>) -> Seq<char> {
    let t = s.skip(leading_space(s) as int);
    t.take(t.len() - trailing_space(t))
}

/// Value of digit `c` in base `radix` (10 or 16), if it is one.
pub open spec fn digit_value(c: char, radix: nat) -> Option<nat> {
    let u = c as u32;
    if '0' as u32 <= u <= '9' as u32 && u - ('0' as u32) < radix {
        Some((u - ('0' as u32)) as nat)
    } else if radix == 16 && 'a' as u32 <= u <= 'f' as u32 {
        Some((u - ('a' as u32) + 10) as nat)
    } else if radix == 16 && 'A' as u32 <= u <= 'F' as u32 {
        Some((u - ('A' as u32) + 10) as nat)
    } else {
        None
    }
}

/// Value of the digits `s` in base `radix`, if every character is a digit.
pub open spec fn digits_value(s: Seq<char>, radix: nat) -> Option<nat>
    decreases s.len(),
{
    if s.len() == 0 {
        Some(0)
    } else {
        match (digits_value(s.drop_last(), radix), digit_value(s.last(), radix)) {
            (Some(v), Some(d)) => Some(v * radix + d),
            _ => None,
        }
    }
}

/// Decimal text as a 32-bit integer: an optional `+` or `-`, then at least
/// one digit, the value within range.
pub open spec fn parse_i32(s: Seq<char>) -> Option<i32> {
    let signed = s.len() > 0 && (s[0] == '+' || s[0] == '-');
    let negative = s.len() > 0 && s[0] == '-';
    let body = if signed { s.drop_first() } else { s };
    if body.len() == 0 {
        None
    } else {
        match digits_value(body, 10) {
            None => None,
            Some(v) => {
                let value = if negative { -v } else { v as int };
                if i32::MIN <= value <= i32::MAX { Some(value as i32) } else { None }
            },
        }
    }
}

/// Hexadecimal text as an unsigned 32-bit integer: an optional `+`, then
/// at least one hexadecimal digit (either case), the value within range.
pub open spec fn parse_hex_u32(s: Seq<char>) -> Option<u32> {
    let body = if s.len() > 0 && s[0] == '+' { s.drop_first() } else { s };
    if body.len() == 0 {
        None
    } else {
        match digits_value(body, 16) {
            None => None,
            Some(v) => if v <= u32::MAX { Some(v as u32) } else { None },
        }
    }
}

/// The integer in a property value, trimmed, or `default` when there is no
/// value or it is not one.
pub open spec fn int_property(value: Option<Seq<char>>, default: i32) -> i32 {
    match value {
        Some(v) => match parse_i32(trimmed(v)) {
            Some(n) => n,
            None => default,
        },
        None => default,
    }
}

/// The ARGB colour in a property value (trimmed hexadecimal, its 32 bits
/// taken as signed), or `default` when there is no value or it is not one.
pub open spec fn color_property(value: Option<Seq<char>>, default: i32) -> i32 {
    match value {
        Some(v) => match parse_hex_u32(trimmed(v)) {
            Some(n) => n as i32,
            None => default,
        },
        None => default,
    }
}

/// The value of the first property named `key`.
pub open spec fn property(props: Seq<(String, String)>, key: Seq<char>) -> Option<Seq<char>>
    decreases props.len(),
{
    if props.len() == 0 {
        None
    } else if props[0].0@ == key {
        Some(props[0].1@)
    } else {
        property(props.drop_first(), key)
    }
}

/// Digits value of a prefix extends by one digit.
proof fn lemma_digits_push(s: Seq<char>, i: int, radix: nat)
    requires
        0 <= i < s.len(),
    ensures
        digits_value(s.take(i + 1), radix) == match (digits_value(s.take(i), radix), digit_value(s[i], radix)) {
            (Some(v), Some(d)) => Some(v * radix + d),
            _ => None::<nat>,
        },
{
    assert(s.take(i + 1).drop_last() =~= s.take(i));
}

/// The value of the trimmed text within `[start, end)` of `s`.
fn trim_bounds(s: &str) -> (r: (usize, usize))
    ensures
        r.0 <= r.1 <= s@.len(),
        s@.subrange(r.0 as int, r.1 as int) == trimmed(s@),
{
    let n = s.unicode_len();
    let mut start: usize = 0;
    proof {
        assert(s@.skip(0) =~= s@);
    }
    while start < n && is_space_char(s.get_char(start))
        invariant
            n == s@.len(),
            start <= n,
            leading_space(s@) == start + leading_space(s@.skip(start as int)),
        decreases n - start,
    {
        proof {
            assert(s@.skip(start as int).drop_first() =~= s@.skip(start + 1));
        }
        start = start + 1;
    }
    proof {
        assert(leading_space(s@.skip(start as int)) == 0);
    }
    let ghost t = s@.skip(start as int);
    let mut end: usize = n;
    proof {
        assert(t.take(end - start) =~= t);
    }
    while end > start && is_space_char(s.get_char(end - 1))
        invariant
            n == s@.len(),
            start <= end <= n,
            t == s@.skip(start as int),
            trailing_space(t) == (n - end) + trailing_space(t.take(end - start)),
        decreases end,
    {
        proof {
            assert(t.take(end - start).drop_last() =~= t.take(end - start - 1));
            assert(t.take(end - start).last() == s@[end - 1]);
        }
        end = end - 1;
    }
    proof {
        if end > start {
            assert(t.take(end - start).last() == s@[end - 1]);
        }
        assert(trailing_space(t.take(end - start)) == 0);
        assert(t.take(t.len() - trailing_space(t)) =~= s@.subrange(start as int, end as int));
    }
    (start, end)
}

/// Whether `c` is Unicode white space.
fn is_space_char(c: char) -> (b: bool)
    ensures
        b == is_white_space(c),
{
    let u = c as u32;
    (0x09 <= u && u <= 0x0d) || u == 0x20 || u == 0x85 || u == 0xa0 || u == 0x1680 || (0x2000 <= u && u <= 0x200a)
        || u == 0x2028 || u == 0x2029 || u == 0x202f || u == 0x205f || u == 0x3000
}

/// Value of digit `c` in base `radix`.
fn char_digit(c: char, radix: u32) -> (d: Option<u32>)
    requires
        radix == 10 || radix == 16,
    ensures
        match d {
            Some(v) => digit_value(c, radix as nat) == Some(v as nat),
            None => digit_value(c, radix as nat) is None,
        },
{
    let u = c as u32;
    if '0' as u32 <= u && u <= '9' as u32 && u - ('0' as u32) < radix {
        Some(u - ('0' as u32))
    } else if radix == 16 && 'a' as u32 <= u && u <= 'f' as u32 {
        Some(u - ('a' as u32) + 10)
    } else if radix == 16 && 'A' as u32 <= u && u <= 'F' as u32 {
        Some(u - ('A' as u32) + 10)
    } else {
        None
    }
}

/// Value of the digits of `s` in `[from, to)` in base `radix`, when it does
/// not exceed `limit`.
fn digits_upto(s: &str, from: usize, to: usize, radix: u32, limit: u64) -> (r: Option<u64>)
    requires
        from <= to <= s@.len(),
        radix == 10 || radix == 16,
        limit <= u32::MAX,
    ensures
        match r {
            Some(v) => digits_value(s@.subrange(from as int, to as int), radix as nat) == Some(v as nat) && v
                <= limit,
            None => match digits_value(s@.subrange(from as int, to as int), radix as nat) {
                Some(v) => v > limit,
                None => true,
            },
        },
{
    let ghost body = s@.subrange(from as int, to as int);
    let mut acc: u64 = 0;
    let mut i: usize = from;
    proof {
        assert(body.take(0) =~= Seq::<char>::empty());
    }
    while i < to
        invariant
            from <= i <= to <= s@.len(),
            body == s@.subrange(from as int, to as int),
            radix == 10 || radix == 16,
            limit <= u32::MAX,
            acc <= limit,
            digits_value(body.take(i - from), radix as nat) == Some(acc as nat),
        decreases to - i,
    {
        let c = s.get_char(i);
        proof {
            lemma_digits_push(body, i - from, radix as nat);
            assert(body[i - from] == c);
        }
        let d = match char_digit(c, radix) {
            Some(d) => d,
            None => {
                proof {
                    lemma_digits_none_extends(body, (i - from + 1) as int, radix as nat);
                    assert(body.take(body.len() as int) =~= body);
                }
                return None;
            },
        };
        let next = acc * (radix as u64) + d as u64;
        if next > limit {
            proof {
                lemma_digits_grow(body, (i - from + 1) as int, radix as nat);
                assert(body.take(body.len() as int) =~= body);
            }
            return None;
        }
        acc = next;
        i = i + 1;
    }
    proof {
        assert(body.take(to - from) =~= body);
    }
    Some(acc)
}

/// A prefix that is not all digits keeps the whole from being all digits.
proof fn lemma_digits_none_extends(s: Seq<char>, k: int, radix: nat)
    requires
        0 <= k <= s.len(),
        digits_value(s.take(k), radix) is None,
    ensures
        digits_value(s, radix) is None,
    decreases s.len() - k,
{
    if k < s.len() {
        lemma_digits_push(s, k, radix);
        lemma_digits_none_extends(s, k + 1, radix);
    } else {
        assert(s.take(k) =~= s);
    }
}

/// Digits never lose value as more follow.
proof fn lemma_digits_grow(s: Seq<char>, k: int, radix: nat)
    requires
        0 <= k <= s.len(),
        radix >= 1,
        digits_value(s.take(k), radix) is Some,
    ensures
        match digits_value(s, radix) {
            Some(v) => v >= digits_value(s.take(k), radix)->Some_0,
            None => true,
        },
    decreases s.len() - k,
{
    if k < s.len() {
        lemma_digits_push(s, k, radix);
        if digits_value(s.take(k + 1), radix) is Some {
            let v = digits_value(s.take(k), radix)->Some_0;
            assert(v * radix >= v) by (nonlinear_arith)
                requires
                    radix >= 1,
            ;
            lemma_digits_grow(s, k + 1, radix);
        } else {
            lemma_digits_none_extends(s, k + 1, radix);
        }
    } else {
        assert(s.take(k) =~= s);
    }
}

/// The integer in an optional property value, or `default`; see
/// [`int_property`].
pub fn parseInt(value: Option<&String>, default: i32) -> (r: i32)
    ensures
        r == int_property(
            match value {
                Some(v) => Some(v@),
                None => None,
            },
            default,
        ),
{
    let v = match value {
        Some(v) => v.as_str(),
        None => {
            return default;
        },
    };
    let (start, end) = trim_bounds(v);
    let ghost t = v@.subrange(start as int, end as int);
    if start == end {
        return default;
    }
    let first = v.get_char(start);
    let negative = first == '-';
    let from: usize = if first == '+' || first == '-' {
        start + 1
    } else {
        start
    };
    proof {
        assert(t[0] == first);
        if first == '+' || first == '-' {
            assert(t.drop_first() =~= v@.subrange(from as int, end as int));
        } else {
            assert(t =~= v@.subrange(from as int, end as int));
        }
    }
    if from == end {
        return default;
    }
    let limit: u64 = if negative {
        0x8000_0000
    } else {
        0x7fff_ffff
    };
    match digits_upto(v, from, end, 10, limit) {
        Some(n) => {
            if negative {
                (0 - (n as i64)) as i32
            } else {
                n as i32
            }
        },
        None => default,
    }
}

/// The ARGB colour in an optional property value, or `default`; see
/// [`color_property`].
pub fn parseColor4(value: Option<&String>, default: i32) -> (r: i32)
    ensures
        r == color_property(
            match value {
                Some(v) => Some(v@),
                None => None,
            },
            default,
        ),
{
    let v = match value {
        Some(v) => v.as_str(),
        None => {
            return default;
        },
    };
    let (start, end) = trim_bounds(v);
    let ghost t = v@.subrange(start as int, end as int);
    if start == end {
        return default;
    }
    let first = v.get_char(start);
    let from: usize = if first == '+' {
        start + 1
    } else {
        start
    };
    proof {
        assert(t[0] == first);
        if first == '+' {
            assert(t.drop_first() =~= v@.subrange(from as int, end as int));
        } else {
            assert(t =~= v@.subrange(from as int, end as int));
        }
    }
    if from == end {
        return default;
    }
    match digits_upto(v, from, end, 16, 0xffff_ffff) {
        Some(n) => #[verifier::truncate] ((n as u32) as i32),
        None => default,
    }
}

/// The value of the first property named `key`.
fn find_property<'a>(props: &'a Vec<(String, String)>, key: &str) -> (r: Option<&'a String>)
    ensures
        match r {
            Some(v) => property(props@, key@) == Some(v@),
            None => property(props@, key@) is None,
        },
{
    let k = String::from_str(key);
    let mut i: usize = 0;
    proof {
        assert(props@.skip(0) =~= props@);
    }
    while i < props.len()
        invariant
            i <= props@.len(),
            k@ == key@,
            property(props@, key@) == property(props@.skip(i as int), key@),
        decreases props@.len() - i,
    {
        proof {
            assert(props@.skip(i as int).drop_first() =~= props@.skip(i + 1));
        }
        if props[i].0 == k {
            return Some(&props[i].1);
        }
        i = i + 1;
    }
    None
}

/// Text of panorama image `index` under `path`.
pub open spec fn panorama_text(path: Seq<char>, index: int) -> Seq<char> {
    path + "/panorama_"@ + decimal(index) + ".png"@
}

/// Namespace and path that parsing `text` as a location gives.
pub open spec fn parsed_location(text: Seq<char>) -> (Seq<char>, Seq<char>) {
    (
        split_location(text).0.map_values(|c: char| ascii_lower(c)),
        split_location(text).1.map_values(|c: char| ascii_lower(c)),
    )
}

/// Settings of a custom title-screen panorama: its six images, weight,
/// blur passes and overlay gradients.
#[derive(Debug, Clone, PartialEq, Eq)]
pub struct CustomPanoramaProperties {
    path: String,
    panoramaLocations: [ResourceLocation; 6],
    weight: i32,
    blur1: i32,
    blur2: i32,
    blur3: i32,
    overlay1Top: i32,
    overlay1Bottom: i32,
    overlay2Top: i32,
    overlay2Bottom: i32,
}

impl CustomPanoramaProperties {
    pub closed spec fn spec_path(&self) -> Seq<char> {
        self.path@
    }

    pub closed spec fn locations(&self) -> Seq<ResourceLocation> {
        self.panoramaLocations@
    }

    /// Weight, the three blur passes and the four overlay colours, in that
    /// order.
    pub closed spec fn settings(&self) -> Seq<i32> {
        seq![
            self.weight,
            self.blur1,
            self.blur2,
            self.blur3,
            self.overlay1Top,
            self.overlay1Bottom,
            self.overlay2Top,
            self.overlay2Bottom,
        ]
    }

    /// Settings read from `properties` for the panorama under `path`:
    /// images `path/panorama_0.png` to `_5`; `weight` (default 1),
    /// `blur1` (64), `blur2` (3), `blur3` (3) as integers; `overlay1.top`
    /// (0x80FFFFFF), `overlay1.bottom` (0xFFFFFF), `overlay2.top` (0),
    /// `overlay2.bottom` (0x80000000) as hexadecimal colours.
    pub fn new(path: &str, properties: &Vec<(String, String)>) -> (p: CustomPanoramaProperties)
        ensures
            p.spec_path() == path@,
            p.locations().len() == 6,
            forall|i: int|
                0 <= i < 6 ==> (#[trigger] p.locations()[i]).spec_namespace() == parsed_location(
                    panorama_text(path@, i),
                ).0 && p.locations()[i].spec_path() == parsed_location(panorama_text(path@, i)).1,
            p.settings() == seq![
                int_property(property(properties@, "weight"@), 1),
                int_property(property(properties@, "blur1"@), 64),
                int_property(property(properties@, "blur2"@), 3),
                int_property(property(properties@, "blur3"@), 3),
                color_property(property(properties@, "overlay1.top"@), -2_130_706_433i32),
                color_property(property(properties@, "overlay1.bottom"@), 16_777_215),
                color_property(property(properties@, "overlay2.top"@), 0),
                color_property(property(properties@, "overlay2.bottom"@), i32::MIN),
            ],
    {
        let l0 = Self::location(path, 0);
        let l1 = Self::location(path, 1);
        let l2 = Self::location(path, 2);
        let l3 = Self::location(path, 3);
        let l4 = Self::location(path, 4);
        let l5 = Self::location(path, 5);
        let locations = [l0, l1, l2, l3, l4, l5];
        proof {
            assert(locations@ =~= seq![l0, l1, l2, l3, l4, l5]);
        }
        let weight = parseInt(find_property(properties, "weight"), 1);
        let blur1 = parseInt(find_property(properties, "blur1"), 64);
        let blur2 = parseInt(find_property(properties, "blur2"), 3);
        let blur3 = parseInt(find_property(properties, "blur3"), 3);
        let overlay1Top = parseColor4(find_property(properties, "overlay1.top"), -2_130_706_433);
        let overlay1Bottom = parseColor4(find_property(properties, "overlay1.bottom"), 16_777_215);
        let overlay2Top = parseColor4(find_property(properties, "overlay2.top"), 0);
        let overlay2Bottom = parseColor4(find_property(properties, "overlay2.bottom"), i32::MIN);
        CustomPanoramaProperties {
            path: String::from_str(path),
            panoramaLocations: locations,
            weight,
            blur1,
            blur2,
            blur3,
            overlay1Top,
            overlay1Bottom,
            overlay2Top,
            overlay2Bottom,
        }
    }

    /// Location of panorama image `index` under `path`.
    fn location(path: &str, index: i64) -> (r: ResourceLocation)
        ensures
            r.spec_namespace() == parsed_location(panorama_text(path@, index as int)).0,
            r.spec_path() == parsed_location(panorama_text(path@, index as int)).1,
    {
        let text = String::from_str(path).concat("/panorama_").concat(decimal_string(index).as_str()).concat(".png");
        ResourceLocation::parse(text.as_str())
    }

    /// The six images.
    pub fn getPanoramaLocations(&self) -> (r: &[ResourceLocation; 6])
        ensures
            r@ == self.locations(),
    {
        &self.panoramaLocations
    }

    pub fn getWeight(&self) -> (v: i32)
        ensures
            v == self.settings()[0],
    {
        self.weight
    }

    pub fn getBlur1(&self) -> (v: i32)
        ensures
            v == self.settings()[1],
    {
        self.blur1
    }

    pub fn getBlur2(&self) -> (v: i32)
        ensures
            v == self.settings()[2],
    {
        self.blur2
    }

    pub fn getBlur3(&self) -> (v: i32)
        ensures
            v == self.settings()[3],
    {
        self.blur3
    }

    pub fn getOverlay1Top(&self) -> (v: i32)
        ensures
            v == self.settings()[4],
    {
        self.overlay1Top
    }

    pub fn getOverlay1Bottom(&self) -> (v: i32)
        ensures
            v == self.settings()[5],
    {
        self.overlay1Bottom
    }

    pub fn getOverlay2Top(&self) -> (v: i32)
        ensures
            v == self.settings()[6],
    {
        self.overlay2Top
    }

    pub fn getOverlay2Bottom(&self) -> (v: i32)
        ensures
            v == self.settings()[7],
    {
        self.overlay2Bottom
    }

    /// `path, weight: W, blur: B1 B2 B3, overlay: O1 O2 O3 O4`, the numbers
    /// in decimal.
    pub fn to_string(&self) -> (s: String)
        ensures
            s@ == self.spec_path() + ", weight: "@ + decimal(self.settings()[0] as int) + ", blur: "@ + decimal(
                self.settings()[1] as int,
            ) + " "@ + decimal(self.settings()[2] as int) + " "@ + decimal(self.settings()[3] as int)
                + ", overlay: "@ + decimal(self.settings()[4] as int) + " "@ + decimal(self.settings()[5] as int)
                + " "@ + decimal(self.settings()[6] as int) + " "@ + decimal(self.settings()[7] as int),
    {
        let s = self.path.clone();
        let s = s.concat(", weight: ").concat(decimal_string(self.weight as i64).as_str());
        let s = s.concat(", blur: ").concat(decimal_string(self.blur1 as i64).as_str());
        let s = s.concat(" ").concat(decimal_string(self.blur2 as i64).as_str());
        let s = s.concat(" ").concat(decimal_string(self.blur3 as i64).as_str());
        let s = s.concat(", overlay: ").concat(decimal_string(self.overlay1Top as i64).as_str());
        let s = s.concat(" ").concat(decimal_string(self.overlay1Bottom as i64).as_str());
        let s = s.concat(" ").concat(decimal_string(self.overlay2Top as i64).as_str());
        s.concat(" ").concat(decimal_string(self.overlay2Bottom as i64).as_str())
    }
}

} // verus!
