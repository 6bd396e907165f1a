//! Editor themes: palette, typography and syntax colours, the two built-in
//! themes, and the `#rrggbb` colour parser the renderer relies on.
use vstd::prelude::*;
use crate::text::{
    byte_offset, chars_of, char_len_utf8, char_width, is_ws, lemma_prefix_bytes_bound,
    lemma_utf8_len_ge, lemma_utf8_len_push, string_from, trim, trim_chars, trim_end, trim_start,
    utf8_len,
};
use crate::html::{trim_start_char, trim_start_char_exec};

verus! {

/// A complete editor theme.
#[derive(Debug, Clone, PartialEq, Eq)]
pub struct Theme {
    pub name: String,
    pub palette: ThemePalette,
    pub typography: ThemeTypography,
    pub syntax: SyntaxTheme,
}

/// The interface colours, each a `#rrggbb` string.
#[derive(Debug, Clone, PartialEq, Eq)]
pub struct ThemePalette {
    pub app_background: String,
    pub panel_background: String,
    pub panel_border: String,
    pub text_primary: String,
    pub text_muted: String,
    pub accent: String,
    pub focused_background: String,
    pub focused_border: String,
    pub code_background: String,
    pub selection: String,
    pub cursor: String,
}

/// The colours of the highlighted token classes.
#[derive(Debug, Clone, PartialEq, Eq)]
pub struct SyntaxTheme {
    pub keyword: String,
    pub string: String,
    pub comment: String,
    pub function: String,
    pub number: String,
    pub constant: String,
    pub types: String,
}

/// Sizes, in points, and the interface scale in percent.
#[derive(Debug, Clone, Copy, PartialEq, Eq)]
pub struct ThemeTypography {
    pub ui_scale: u16,
    pub body_size: u16,
    pub title_size: u16,
    pub code_size: u16,
}

/// The palette, field by field.
pub open spec fn palette_is(p: ThemePalette, c: Seq<Seq<char>>) -> bool {
    &&& c.len() == 11
    &&& p.app_background@ == c[0]
    &&& p.panel_background@ == c[1]
    &&& p.panel_border@ == c[2]
    &&& p.text_primary@ == c[3]
    &&& p.text_muted@ == c[4]
    &&& p.accent@ == c[5]
    &&& p.focused_background@ == c[6]
    &&& p.focused_border@ == c[7]
    &&& p.code_background@ == c[8]
    &&& p.selection@ == c[9]
    &&& p.cursor@ == c[10]
}

/// The syntax colours, field by field.
pub open spec fn syntax_is(s: SyntaxTheme, c: Seq<Seq<char>>) -> bool {
    &&& c.len() == 7
    &&& s.keyword@ == c[0]
    &&& s.string@ == c[1]
    &&& s.comment@ == c[2]
    &&& s.function@ == c[3]
    &&& s.number@ == c[4]
    &&& s.constant@ == c[5]
    &&& s.types@ == c[6]
}

/// The typography both built-in themes share.
pub open spec fn default_typography(t: ThemeTypography) -> bool {
    t == ThemeTypography { ui_scale: 100, body_size: 15, title_size: 24, code_size: 14 }
}

pub open spec fn dark_palette() -> Seq<Seq<char>> {
    seq![
        "#0f1117"@, "#171a21"@, "#2b3240"@, "#f3f4f6"@, "#94a3b8"@, "#8b5cf6"@,
        "#1d2330"@, "#c084fc"@, "#111827"@, "#3e4451"@, "#ffffff"@,
    ]
}

pub open spec fn dark_syntax() -> Seq<Seq<char>> {
    seq!["#c678dd"@, "#98c379"@, "#5c6370"@, "#61afef"@, "#d19a66"@, "#e06c75"@, "#e5c07b"@]
}

pub open spec fn light_palette() -> Seq<Seq<char>> {
    seq![
        "#f8fafc"@, "#ffffff"@, "#dbe4f0"@, "#0f172a"@, "#64748b"@, "#7c3aed"@,
        "#f3e8ff"@, "#8b5cf6"@, "#eef2ff"@, "#dbeafe"@, "#000000"@,
    ]
}

pub open spec fn light_syntax() -> Seq<Seq<char>> {
    seq!["#a626a4"@, "#50a14f"@, "#a0a1a7"@, "#4078f2"@, "#986801"@, "#e45649"@, "#c18401"@]
}

/// The built-in dark theme, field by field.
pub open spec fn is_sola_dark(t: Theme) -> bool {
    &&& t.name@ == "sola-dark"@
    &&& palette_is(t.palette, dark_palette())
    &&& default_typography(t.typography)
    &&& syntax_is(t.syntax, dark_syntax())
}

/// The built-in light theme, field by field.
pub open spec fn is_sola_light(t: Theme) -> bool {
    &&& t.name@ == "sola-light"@
    &&& palette_is(t.palette, light_palette())
    &&& default_typography(t.typography)
    &&& syntax_is(t.syntax, light_syntax())
}

fn typography_default() -> (r: ThemeTypography)
    ensures
        default_typography(r),
{
    ThemeTypography { ui_scale: 100, body_size: 15, title_size: 24, code_size: 14 }
}

impl Theme {
    /// The dark theme the editor starts with.
    pub fn sola_dark() -> (r: Theme)
        ensures
            is_sola_dark(r),
    {
        Theme {
            name: string_from("sola-dark"),
            palette: ThemePalette {
                app_background: string_from("#0f1117"),
                panel_background: string_from("#171a21"),
                panel_border: string_from("#2b3240"),
                text_primary: string_from("#f3f4f6"),
                text_muted: string_from("#94a3b8"),
                accent: string_from("#8b5cf6"),
                focused_background: string_from("#1d2330"),
                focused_border: string_from("#c084fc"),
                code_background: string_from("#111827"),
                selection: string_from("#3e4451"),
                cursor: string_from("#ffffff"),
            },
            typography: typography_default(),
            syntax: SyntaxTheme {
                keyword: string_from("#c678dd"),
                string: string_from("#98c379"),
                comment: string_from("#5c6370"),
                function: string_from("#61afef"),
                number: string_from("#d19a66"),
                constant: string_from("#e06c75"),
                types: string_from("#e5c07b"),
            },
        }
    }

    /// The light variant.
    pub fn sola_light() -> (r: Theme)
        ensures
            is_sola_light(r),
    {
        Theme {
            name: string_from("sola-light"),
            palette: ThemePalette {
                app_background: string_from("#f8fafc"),
                panel_background: string_from("#ffffff"),
                panel_border: string_from("#dbe4f0"),
                text_primary: string_from("#0f172a"),
                text_muted: string_from("#64748b"),
                accent: string_from("#7c3aed"),
                focused_background: string_from("#f3e8ff"),
                focused_border: string_from("#8b5cf6"),
                code_background: string_from("#eef2ff"),
                selection: string_from("#dbeafe"),
                cursor: string_from("#000000"),
            },
            typography: typography_default(),
            syntax: SyntaxTheme {
                keyword: string_from("#a626a4"),
                string: string_from("#50a14f"),
                comment: string_from("#a0a1a7"),
                function: string_from("#4078f2"),
                number: string_from("#986801"),
                constant: string_from("#e45649"),
                types: string_from("#c18401"),
            },
        }
    }
}

// ---------------------------------------------------------------------------
// Hex colours
// ---------------------------------------------------------------------------

pub open spec fn is_hex(c: char) -> bool {
    ('0' <= c && c <= '9') || ('a' <= c && c <= 'f') || ('A' <= c && c <= 'F')
}

pub open spec fn hex_digit_value(c: char) -> nat {
    if '0' <= c && c <= '9' {
        ((c as u32) - ('0' as u32)) as nat
    } else if 'a' <= c && c <= 'f' {
        ((c as u32) - ('a' as u32) + 10) as nat
    } else {
        ((c as u32) - ('A' as u32) + 10) as nat
    }
}

pub open spec fn all_hex(s: Seq<char>) -> bool {
    forall|i: int| 0 <= i < s.len() ==> is_hex(s[i])
}

/// The value of a string of hexadecimal digits.
pub open spec fn hex_value(s: Seq<char>) -> nat
    decreases s.len(),
{
    if s.len() == 0 {
        0
    } else {
        hex_value(s.drop_last()) * 16 + hex_digit_value(s.last())
    }
}

/// The colour text once trimmed and stripped of its leading `#`s.
pub open spec fn hex_body(input: Seq<char>) -> Seq<char> {
    trim_start_char(trim(input), '#')
}

/// `parse_hex_color`: after trimming and dropping leading `#`s, exactly six
/// bytes that `u32::from_str_radix(.., 16)` accepts: an optional `+`, then
/// hexadecimal digits.
pub open spec fn parse_hex_color_spec(input: Seq<char>) -> Option<u32> {
    let t = hex_body(input);
    let digits = if t.len() > 0 && t[0] == '+' {
        t.drop_first()
    } else {
        t
    };
    if utf8_len(t) == 6 && digits.len() > 0 && all_hex(digits) {
        Some(hex_value(digits) as u32)
    } else {
        None
    }
}

/// Whether `s` is exactly `n` bytes long in UTF-8.
fn has_byte_len(s: &Vec<char>, n: usize) -> (r: bool)
    requires
        n <= 0xffff,
    ensures
        r == (utf8_len(s@) == n),
{
    let mut total: usize = 0;
    let mut i: usize = 0;
    while i < s.len()
        invariant
            i <= s@.len(),
            n <= 0xffff,
            total == byte_offset(s@, i as int),
            total <= n,
        decreases s.len() - i,
    {
        proof {
            assert(s@.take(i + 1) =~= s@.take(i as int).push(s@[i as int]));
            lemma_utf8_len_push(s@.take(i as int), s@[i as int]);
        }
        let w = char_len_utf8(s[i]);
        if total + w > n {
            proof {
                lemma_prefix_bytes_bound(s@, i + 1);
            }
            return false;
        }
        total = total + w;
        i += 1;
    }
    assert(s@.take(s@.len() as int) =~= s@);
    total == n
}

pub open spec fn pow16(k: nat) -> nat
    decreases k,
{
    if k == 0 {
        1
    } else {
        pow16((k - 1) as nat) * 16
    }
}

/// The hexadecimal colour `input` names, as `0xrrggbb`.
pub fn parse_hex_color(input: &str) -> (r: Option<u32>)
    ensures
        r == parse_hex_color_spec(input@),
{
    let chars = chars_of(input);
    let trimmed = trim_chars(&chars);
    let t = trim_start_char_exec(&trimmed, '#');
    if !has_byte_len(&t, 6) {
        return None;
    }
    let start: usize = if t.len() > 0 && t[0] == '+' { 1 } else { 0 };
    let ghost digits = if t@.len() > 0 && t@[0] == '+' { t@.drop_first() } else { t@ };
    assert(digits =~= t@.skip(start as int));
    if start >= t.len() {
        return None;
    }
    proof {
        crate::text::lemma_utf8_len_ge(t@);
    }
    let mut value: u64 = 0;
    let mut i: usize = start;
    assert(t@.subrange(start as int, start as int) =~= Seq::<char>::empty());
    while i < t.len()
        invariant
            start <= i <= t@.len(),
            t@.len() <= 6,
            digits == t@.skip(start as int),
            digits == (if t@.len() > 0 && t@[0] == '+' { t@.drop_first() } else { t@ }),
            t@ == hex_body(input@),
            utf8_len(t@) == 6,
            all_hex(t@.subrange(start as int, i as int)),
            value == hex_value(t@.subrange(start as int, i as int)),
            value < pow16((i - start) as nat),
            pow16((i - start) as nat) <= 0x1000000,
        decreases t.len() - i,
    {
        let c = t[i];
        let d: u64 = if '0' <= c && c <= '9' {
            (c as u32 - '0' as u32) as u64
        } else if 'a' <= c && c <= 'f' {
            (c as u32 - 'a' as u32 + 10) as u64
        } else if 'A' <= c && c <= 'F' {
            (c as u32 - 'A' as u32 + 10) as u64
        } else {
            assert(!all_hex(digits)) by {
                assert(digits[i - start] == c);
            }
            return None;
        };
        let ghost seg = t@.subrange(start as int, i + 1);
        assert(seg.drop_last() =~= t@.subrange(start as int, i as int));
        assert(seg.last() == c);
        assert(all_hex(seg)) by {
            assert forall|j: int| 0 <= j < seg.len() implies is_hex(seg[j]) by {
                if j < seg.len() - 1 {
                    assert(seg[j] == t@.subrange(start as int, i as int)[j]);
                }
            }
        }
        proof {
            let k = (i - start) as nat;
            assert(pow16(k + 1) == pow16(k) * 16);
            assert(value * 16 + d < pow16(k) * 16) by (nonlinear_arith)
                requires
                    value < pow16(k),
                    d < 16,
            ;
            if k + 1 <= 6 {
                reveal_with_fuel(pow16, 7);
                assert(pow16(k + 1) <= 0x1000000) by {
                    assert(k + 1 == 1 || k + 1 == 2 || k + 1 == 3 || k + 1 == 4 || k + 1 == 5 || k + 1 == 6);
                }
            }
        }
        value = value * 16 + d;
        i += 1;
    }
    assert(t@.subrange(start as int, t@.len() as int) =~= digits);
    Some(value as u32)
}

/// The lowercase hexadecimal digit for `d`, below 16.
pub open spec fn hex_char(d: nat) -> char {
    if d == 0 {
        '0'
    } else if d == 1 {
        '1'
    } else if d == 2 {
        '2'
    } else if d == 3 {
        '3'
    } else if d == 4 {
        '4'
    } else if d == 5 {
        '5'
    } else if d == 6 {
        '6'
    } else if d == 7 {
        '7'
    } else if d == 8 {
        '8'
    } else if d == 9 {
        '9'
    } else if d == 10 {
        'a'
    } else if d == 11 {
        'b'
    } else if d == 12 {
        'c'
    } else if d == 13 {
        'd'
    } else if d == 14 {
        'e'
    } else {
        'f'
    }
}

/// The last `n` lowercase hexadecimal digits of `v`, most significant
/// first: what `format!("{:06x}", v)` writes for `n` six and `v` below
/// `0x1000000`.
pub open spec fn hex_digits(v: nat, n: nat) -> Seq<char>
    decreases n,
{
    if n == 0 {
        seq![]
    } else {
        hex_digits(v / 16, (n - 1) as nat).push(hex_char(v % 16))
    }
}

proof fn lemma_hex_char(d: nat)
    requires
        d < 16,
    ensures
        is_hex(hex_char(d)),
        hex_digit_value(hex_char(d)) == d,
        !is_ws(hex_char(d)),
        char_width(hex_char(d)) == 1,
        hex_char(d) != '#',
        hex_char(d) != '+',
{
}

proof fn lemma_pow16_pos(k: nat)
    ensures
        pow16(k) > 0,
    decreases k,
{
    if k > 0 {
        lemma_pow16_pos((k - 1) as nat);
    }
}

proof fn lemma_pow16_mono(a: nat, b: nat)
    requires
        a <= b,
    ensures
        pow16(a) <= pow16(b),
    decreases b,
{
    if a < b {
        lemma_pow16_mono(a, (b - 1) as nat);
        lemma_pow16_pos((b - 1) as nat);
    }
}

proof fn lemma_hex_value_bound(s: Seq<char>)
    requires
        all_hex(s),
    ensures
        hex_value(s) < pow16(s.len()),
    decreases s.len(),
{
    if s.len() > 0 {
        let p = s.drop_last();
        assert(all_hex(p)) by {
            assert forall|i: int| 0 <= i < p.len() implies is_hex(p[i]) by {
                assert(p[i] == s[i]);
            }
        }
        lemma_hex_value_bound(p);
        assert(is_hex(s[s.len() - 1]));
        let hv = hex_value(p);
        let pw = pow16(p.len());
        let dv = hex_digit_value(s.last());
        assert(dv < 16);
        assert(hv * 16 + dv < pw * 16) by (nonlinear_arith)
            requires
                hv < pw,
                dv < 16,
        ;
    }
}

proof fn lemma_hex_digits(v: nat, n: nat)
    ensures
        hex_digits(v, n).len() == n,
        all_hex(hex_digits(v, n)),
        hex_value(hex_digits(v, n)) == v % pow16(n),
        utf8_len(hex_digits(v, n)) == n,
        forall|i: int|
            0 <= i < n ==> !is_ws(#[trigger] hex_digits(v, n)[i]) && hex_digits(v, n)[i] != '#'
                && hex_digits(v, n)[i] != '+',
    decreases n,
{
    let h = hex_digits(v, n);
    if n == 0 {
        assert(v % 1 == 0);
    } else {
        let m = (n - 1) as nat;
        let p = hex_digits(v / 16, m);
        let c = hex_char(v % 16);
        lemma_hex_digits(v / 16, m);
        lemma_hex_char(v % 16);
        lemma_pow16_pos(m);
        assert(h == p.push(c));
        assert(h.drop_last() =~= p);
        assert forall|i: int| 0 <= i < h.len() implies is_hex(h[i]) by {
            if i < m {
                assert(h[i] == p[i]);
            }
        }
        assert forall|i: int|
            0 <= i < n implies !is_ws(#[trigger] h[i]) && h[i] != '#' && h[i] != '+' by {
            if i < m {
                assert(h[i] == p[i]);
            }
        }
        lemma_utf8_len_push(p, c);
        vstd::arithmetic::div_mod::lemma_breakdown(v as int, 16, pow16(m) as int);
        assert(pow16(n) == pow16(m) * 16);
    }
}

/// Colour values fit in `0xrrggbb`, and a `#` followed by the six lowercase
/// hexadecimal digits of a value up to `0xffffff` reads back as that value.
pub proof fn law_hex_color(input: Seq<char>, v: nat)
    ensures
        parse_hex_color_spec(input) matches Some(x) ==> x <= 0xffffff,
        v <= 0xffffff ==> parse_hex_color_spec(seq!['#'] + hex_digits(v, 6)) == Some(v as u32),
{
    reveal_with_fuel(pow16, 7);
    assert(pow16(6) == 0x1000000);
    let t = hex_body(input);
    let digits = if t.len() > 0 && t[0] == '+' {
        t.drop_first()
    } else {
        t
    };
    if utf8_len(t) == 6 && digits.len() > 0 && all_hex(digits) {
        lemma_utf8_len_ge(t);
        lemma_hex_value_bound(digits);
        lemma_pow16_mono(digits.len(), 6);
    }
    if v <= 0xffffff {
        let h = hex_digits(v, 6);
        lemma_hex_digits(v, 6);
        let s = seq!['#'] + h;
        assert(s.last() == h[5]);
        assert(!is_ws(h[5]));
        assert(trim_end(s) == s);
        assert(s[0] == '#');
        assert(!is_ws('#'));
        assert(trim_start(s) == s);
        assert(trim(s) == s);
        assert(s.drop_first() =~= h);
        assert(h[0] != '#');
        assert(trim_start_char(h, '#') == h);
        assert(hex_body(s) == h);
        assert(h[0] != '+');
        vstd::arithmetic::div_mod::lemma_small_mod(v, 0x1000000);
    }
}

} // verus!
