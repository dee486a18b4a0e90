//! The terminal configuration the controller is given.

use vstd::prelude::*;
use vstd::string::StringExecFns;

verus! {

/// The default ISO 4217 code: EUR.
pub fn currency() -> (r: usize)
    ensures
        r == 978,
{
    978
}

/// The default time to wait for a card, in seconds.
pub fn read_card_timeout() -> (r: u8)
    ensures
        r == 15,
{
    15
}

/// The default hold amount in minor units.
pub fn pre_authorization_amount() -> (r: usize)
    ensures
        r == 2500,
{
    2500
}

/// The default longest time between end-of-day runs, in seconds.
pub fn end_of_day_max_interval() -> (r: u64)
    ensures
        r == 24 * 60 * 60,
{
    24 * 60 * 60
}

/// The numeric ISO 4217 code of a known currency name; the comparison
/// ignores ASCII case.
pub open spec fn spec_iso_4217(s: Seq<char>) -> Option<usize> {
    let u = s.map(|i: int, c: char| spec_upper(c));
    if u == "SEK"@ {
        Some(752usize)
    } else if u == "GBP"@ {
        Some(826usize)
    } else if u == "EUR"@ {
        Some(978usize)
    } else if u == "PLN"@ {
        Some(985usize)
    } else {
        None
    }
}

/// ASCII uppercase of one character.
pub open spec fn spec_upper(c: char) -> char {
    if 'a' <= c <= 'z' {
        ((c as u8) - 0x20) as char
    } else {
        c
    }
}

/// Maps a currency name to its ISO 4217 number, ignoring ASCII case;
/// unknown names, among them anything outside ASCII, map to nothing.
pub fn iso_4217(code: &str) -> (r: Option<usize>)
    ensures
        r == spec_iso_4217(code@),
{
    if !code.is_ascii() {
        proof {
            lemma_non_ascii_is_unknown(code@);
        }
        return None;
    }
    let n = code.unicode_len();
    let mut up: String = String::new();
    let mut i: usize = 0;
    while i < n
        invariant
            code.is_ascii(),
            n == code@.len(),
            i <= n,
            up@ == code@.subrange(0, i as int).map(|k: int, c: char| spec_upper(c)),
            up.is_ascii(),
        decreases n - i,
    {
        let b = code.get_ascii(i);
        let ub = if b >= 0x61 && b <= 0x7a {
            b - 0x20
        } else {
            b
        };
        let mut one: Vec<u8> = Vec::new();
        one.push(ub);
        proof {
            assert(one@ =~= seq![ub]);
            assert forall|j: int| 0 <= j < one@.len() implies one@[j] < 0x80 by {}
            crate::encoding::lemma_ascii_valid_utf8(one@);
        }
        let cs = match crate::encoding::string_from_utf8(one) {
            Some(sv) => sv,
            None => {
                proof {
                    assert(false);
                }
                String::new()
            },
        };
        up.append(cs.as_str());
        proof {
            let sub2 = code@.subrange(0, i + 1);
            assert(sub2.drop_last() =~= code@.subrange(0, i as int));
            assert(sub2.last() == code@[i as int]);
            reveal_with_fuel(vstd::utf8::decode_utf8, 3);
            assert(cs@.len() == 1 && cs@[0] == ub as char) by {
                lemma_one_ascii_decodes(ub);
            };
            assert(cs@[0] == spec_upper(code@[i as int])) by {
                lemma_upper_char(code@[i as int], ub);
            };
            assert(up@ =~= sub2.map(|k: int, c: char| spec_upper(c)));
        }
        i = i + 1;
    }
    proof {
        assert(code@.subrange(0, n as int) =~= code@);
    }
    if up.eq(&String::from_str("SEK")) {
        Some(752)
    } else if up.eq(&String::from_str("GBP")) {
        Some(826)
    } else if up.eq(&String::from_str("EUR")) {
        Some(978)
    } else if up.eq(&String::from_str("PLN")) {
        Some(985)
    } else {
        None
    }
}

/// A name with a character outside ASCII equals no known currency name.
proof fn lemma_non_ascii_is_unknown(s: Seq<char>)
    requires
        !vstd::utf8::is_ascii_chars(s),
    ensures
        spec_iso_4217(s) is None,
{
    let j = choose|j: int| 0 <= j < s.len() && !('\0' <= #[trigger] s[j] <= '\u{7f}');
    let u = s.map(|i: int, c: char| spec_upper(c));
    assert(u[j] == spec_upper(s[j]));
    assert(!('\0' <= u[j] <= '\u{7f}'));
    reveal_strlit("SEK");
    reveal_strlit("GBP");
    reveal_strlit("EUR");
    reveal_strlit("PLN");
    assert(forall|k: int| 0 <= k < "SEK"@.len() ==> '\0' <= #[trigger] "SEK"@[k] <= '\u{7f}');
    assert(forall|k: int| 0 <= k < "GBP"@.len() ==> '\0' <= #[trigger] "GBP"@[k] <= '\u{7f}');
    assert(forall|k: int| 0 <= k < "EUR"@.len() ==> '\0' <= #[trigger] "EUR"@[k] <= '\u{7f}');
    assert(forall|k: int| 0 <= k < "PLN"@.len() ==> '\0' <= #[trigger] "PLN"@[k] <= '\u{7f}');
    if u == "SEK"@ {
        assert("SEK"@[j] == u[j]);
    }
    if u == "GBP"@ {
        assert("GBP"@[j] == u[j]);
    }
    if u == "EUR"@ {
        assert("EUR"@[j] == u[j]);
    }
    if u == "PLN"@ {
        assert("PLN"@[j] == u[j]);
    }
}

/// One ASCII byte decodes to exactly its character.
proof fn lemma_one_ascii_decodes(b: u8)
    requires
        b < 0x80,
    ensures
        vstd::utf8::valid_utf8(seq![b]),
        vstd::utf8::decode_utf8(seq![b]) =~= seq![b as char],
{
    crate::encoding::lemma_ascii_valid_utf8(seq![b]);
    let s = seq![b];
    assert(vstd::utf8::is_leading_byte_width_1(s[0]));
    assert(vstd::utf8::length_of_first_scalar(s) == 1);
    assert(vstd::utf8::pop_first_scalar(s) =~= Seq::<u8>::empty());
    assert(vstd::utf8::decode_first_scalar(s) == vstd::utf8::codepoint_width_1(b));
    assert(vstd::utf8::codepoint_width_1(b) == b as u32) by {
        assert(vstd::utf8::leading_bits_width_1(b) == b as u32) by (bit_vector)
            requires
                b < 0x80,
        ;
    };
    vstd::utf8::char_u32_cast(b as char, b as u32);
    assert(vstd::utf8::decode_utf8(Seq::<u8>::empty()) =~= Seq::<char>::empty());
    assert(vstd::utf8::decode_utf8(s) == seq![vstd::utf8::decode_first_scalar(s) as char]
        + vstd::utf8::decode_utf8(vstd::utf8::pop_first_scalar(s)));
    assert(vstd::utf8::decode_utf8(s) =~= seq![(b as u32) as char]);
}

/// The exec case mapping on a character's ASCII byte matches the spec's
/// mapping on the character.
proof fn lemma_upper_char(c: char, ub: u8)
    requires
        c as u32 <= 0x7f,
        ub == if 0x61 <= (c as u8) <= 0x7a {
            ((c as u8) - 0x20) as u8
        } else {
            c as u8
        },
    ensures
        ub as char == spec_upper(c),
{
    vstd::utf8::char_is_scalar(c);
    if 'a' <= c <= 'z' {
        vstd::utf8::char_u32_cast(c, c as u32);
    }
}

/// The terminal identifier a fresh configuration falls back to: the
/// all-zeros sentinel when none was given.
pub fn normalize_terminal_id(id: String) -> (r: String)
    ensures
        id@.len() == 0 ==> r@ == "00000000"@,
        id@.len() > 0 ==> r@ == id@,
{
    if id.as_str().unicode_len() == 0 {
        String::from_str("00000000")
    } else {
        id
    }
}

/// The per-terminal part of the configuration.
#[derive(Debug, PartialEq)]
pub struct FeigConfig {
    /// The ISO 4217 number of the terminal's currency.
    pub currency: usize,
    /// The hold amount of a reservation, in minor units.
    pub pre_authorization_amount: usize,
    /// How long to wait for a card, in seconds.
    pub read_card_timeout: u8,
    /// The terminal password, six decimal digits.
    pub password: usize,
    /// The longest time between end-of-day runs, in seconds.
    pub end_of_day_max_interval: u64,
}

impl Default for FeigConfig {
    /// The defaults: EUR, a 25.00 hold, 15 seconds, no password, one day.
    fn default() -> (r: Self)
        ensures
            r.currency == 978,
            r.pre_authorization_amount == 2500,
            r.read_card_timeout == 15,
            r.password == 0,
            r.end_of_day_max_interval == 24 * 60 * 60,
    {
        FeigConfig {
            currency: 978,
            pre_authorization_amount: 2500,
            read_card_timeout: 15,
            password: 0,
            end_of_day_max_interval: 24 * 60 * 60,
        }
    }
}

/// Everything the controller needs to know about one terminal.
#[derive(Debug, PartialEq)]
pub struct Config {
    /// The terminal identifier; all zeros means unset.
    pub terminal_id: String,
    /// The serial the connected device must report.
    pub feig_serial: String,
    /// The terminal's IPv4 address, one octet per entry.
    pub ip_address: [u8; 4],
    pub feig_config: FeigConfig,
    /// How many transactions may be open at once.
    pub transactions_max_num: usize,
}

impl Default for Config {
    fn default() -> (r: Self)
        ensures
            r.terminal_id@ == Seq::<char>::empty(),
            r.feig_serial@ == Seq::<char>::empty(),
            r.transactions_max_num == 1,
    {
        Config {
            terminal_id: String::new(),
            feig_serial: String::new(),
            ip_address: [0, 0, 0, 0],
            feig_config: FeigConfig {
                currency: 978,
                pre_authorization_amount: 2500,
                read_card_timeout: 15,
                password: 0,
                end_of_day_max_interval: 24 * 60 * 60,
            },
            transactions_max_num: 1,
        }
    }
}

} // verus!
