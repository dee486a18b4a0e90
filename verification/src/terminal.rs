//! The terminal controller: it owns the active transactions and decides
//! each dialog's requests and outcomes. The wire itself is driven by the
//! caller, which hands every received event back in.

use crate::config::Config;
use crate::config::spec_upper;
use crate::constants::ErrorMessages;
use crate::encoding;
use crate::errors::ZVTError;
use crate::packets;
use crate::packets::tlv;
use crate::sequences::EndOfDayResponse;
use vstd::prelude::*;
use vstd::string::StringExecFns;

verus! {

/// What a read card turned out to be.
#[derive(Debug, PartialEq)]
pub enum CardInfo {
    /// A bank card: an application outside the deny list was found.
    Bank,
    /// A membership card, named by its normalized tag id.
    MembershipCard(String),
}

/// What a committed transaction amounted to.
#[derive(Debug, PartialEq)]
pub struct TransactionSummary {
    pub terminal_id: Option<String>,
    pub amount: Option<u64>,
    pub trace_number: Option<u64>,
    /// Four decimal digits, month and day.
    pub date: Option<String>,
    /// Six decimal digits, hour, minute and second.
    pub time: Option<String>,
}

/// The controller's own error set.
#[derive(Debug, PartialEq)]
pub enum Error {
    UnexpectedPacket,
    ActiveTransaction(String),
    NoCardPresented,
    UnknownToken(String),
    NeedsPinEntry,
    TidMismatch,
    IncorrectDeviceId { expected: String, received: String },
}

/// A running pre-authorization.
#[derive(Debug, PartialEq)]
pub struct TransactionData {
    /// The receipt number the terminal assigned.
    pub receipt_no: usize,
    /// The amount that was held.
    pub pre_authorization_amount: usize,
}

/// The controller state: the configuration, the open transactions by
/// token, and whether the terminal has been configured.
pub struct Feig {
    pub config: Config,
    pub transactions: Vec<(String, TransactionData)>,
    pub successfully_configured: bool,
}

impl Feig {
    /// The tokens of the open transactions.
    pub open spec fn spec_tokens(self) -> Seq<Seq<char>> {
        self.transactions@.map(|i: int, e: (String, TransactionData)| e.0@)
    }

    pub open spec fn spec_has_token(self, t: Seq<char>) -> bool {
        exists|i: int|
            0 <= i < self.transactions@.len() && (#[trigger] self.transactions@[i]).0@ == t
    }

    /// At most one transaction per token.
    pub open spec fn wf(self) -> bool {
        forall|i: int, j: int|
            0 <= i < j < self.transactions@.len() ==> (#[trigger] self.transactions@[i]).0@ != (
            #[trigger] self.transactions@[j]).0@
    }

    pub fn new(config: Config) -> (r: Self)
        ensures
            r.wf(),
            r.transactions@.len() == 0,
            !r.successfully_configured,
    {
        Feig { config, transactions: Vec::new(), successfully_configured: false }
    }

    fn find_token(&self, token: &str) -> (r: Option<usize>)
        ensures
            match r {
                Some(i) => i < self.transactions@.len() && self.transactions@[i as int].0@
                    == token@,
                None => !self.spec_has_token(token@),
            },
    {
        let mut i: usize = 0;
        while i < self.transactions.len()
            invariant
                i <= self.transactions@.len(),
                forall|j: int| 0 <= j < i ==> (#[trigger] self.transactions@[j]).0@ != token@,
            decreases self.transactions@.len() - i,
        {
            if self.transactions[i].0.eq(&String::from_str(token)) {
                return Some(i);
            }
            i = i + 1;
        }
        None
    }

    /// Builds the reservation request that opens a transaction: it is
    /// refused while the controller is at capacity or the token is already
    /// in use; otherwise the request holds the asked amount, the configured
    /// currency, and the token as the BMP-60 reference.
    pub fn begin_transaction_request(&self, token: &str, pre_authorization_amount: usize) -> (r:
        Result<packets::Reservation, Error>)
        ensures
            r is Err <==> (self.transactions@.len() >= self.config.transactions_max_num
                || self.spec_has_token(token@)),
            r matches Ok(req) ==> {
                &&& self.transactions@.len() < self.config.transactions_max_num
                &&& !self.spec_has_token(token@)
                &&& req.amount == Some(pre_authorization_amount)
                &&& req.currency == Some(self.config.feig_config.currency)
                &&& req.payment_type == Some(0x40u8)
                &&& req.tlv matches Some(t) && (t.bmp_data matches Some(b) && b.bmp_prefix@
                    == "AC"@ && b.bmp_data@ == token@)
            },
    {
        if self.transactions.len() >= self.config.transactions_max_num {
            return Err(
                Error::ActiveTransaction(
                    String::from_str("maximum number of transactions reached"),
                ),
            );
        }
        match self.find_token(token) {
            Some(_) => Err(Error::ActiveTransaction(String::from_str("token already in use"))),
            None => Ok(
                packets::Reservation {
                    amount: Some(pre_authorization_amount),
                    currency: Some(self.config.feig_config.currency),
                    payment_type: Some(0x40),
                    expiry_date: None,
                    card_number: None,
                    track_2_data: None,
                    timeout: None,
                    maximum_no_of_status_info: None,
                    pump_no: None,
                    trace_number: None,
                    aid_authorization_attribute: None,
                    additional_text: None,
                    zvt_card_type: None,
                    tlv: Some(
                        tlv::PreAuthData {
                            bmp_data: Some(
                                tlv::Bmp60 {
                                    bmp_prefix: String::from_str("AC"),
                                    bmp_data: String::from_str(token),
                                },
                            ),
                        },
                    ),
                },
            ),
        }
    }

    /// Records a reservation that succeeded on the wire: the token now maps
    /// to the receipt number the terminal assigned. Without a receipt
    /// number nothing is recorded.
    pub fn begin_transaction_finish(
        &mut self,
        token: &str,
        pre_authorization_amount: usize,
        receipt_no: Option<usize>,
    )
        requires
            old(self).wf(),
            !old(self).spec_has_token(token@),
        ensures
            final(self).wf(),
            final(self).config == old(self).config,
            final(self).successfully_configured == old(self).successfully_configured,
            match receipt_no {
                Some(n) => final(self).transactions@ == old(self).transactions@.push(
                    (
                        final(self).transactions@.last().0,
                        TransactionData { receipt_no: n, pre_authorization_amount },
                    ),
                ) && final(self).transactions@.last().0@ == token@,
                None => final(self).transactions@ == old(self).transactions@,
            },
    {
        match receipt_no {
            Some(n) => {
                let key = String::from_str(token);
                self.transactions.push(
                    (key, TransactionData { receipt_no: n, pre_authorization_amount }),
                );
                proof {
                    let t = self.transactions@;
                    assert(t.last().0@ == token@);
                    assert forall|i: int, j: int| 0 <= i < j < t.len() implies (
                    #[trigger] t[i]).0@ != (#[trigger] t[j]).0@ by {
                        if j == t.len() - 1 {
                            assert(old(self).transactions@[i] == t[i]);
                            assert(!old(self).spec_has_token(token@));
                        }
                    };
                }
            },
            None => {},
        }
    }

    /// Builds the partial reversal that commits a transaction: unknown
    /// tokens are refused; otherwise the reversed amount is what remains of
    /// the hold after the billed amount, never below zero.
    pub fn commit_transaction_request(&self, token: &str, amount: u64) -> (r: Result<
        packets::PartialReversal,
        Error,
    >)
        ensures
            !self.spec_has_token(token@) <==> r is Err,
            r matches Ok(req) ==> exists|i: int|
                {
                    &&& 0 <= i < self.transactions@.len()
                    &&& (#[trigger] self.transactions@[i]).0@ == token@
                    &&& req.receipt_no == Some(self.transactions@[i].1.receipt_no)
                    &&& req.amount == Some(
                        if self.transactions@[i].1.pre_authorization_amount >= amount {
                            (self.transactions@[i].1.pre_authorization_amount - amount) as usize
                        } else {
                            0usize
                        },
                    )
                    &&& req.currency == Some(self.config.feig_config.currency)
                    &&& req.payment_type == Some(0x40u8)
                    &&& (req.tlv matches Some(t) && (t.bmp_data matches Some(b) && b.bmp_prefix@
                        == "AC"@ && b.bmp_data@ == token@))
                },
    {
        let i = match self.find_token(token) {
            None => {
                return Err(Error::UnknownToken(String::from_str(token)));
            },
            Some(i) => i,
        };
        let data = &self.transactions[i].1;
        let reversal_amount: usize = if amount <= data.pre_authorization_amount as u64 {
            (data.pre_authorization_amount as u64 - amount) as usize
        } else {
            0
        };
        Ok(
            packets::PartialReversal {
                receipt_no: Some(data.receipt_no),
                amount: Some(reversal_amount),
                payment_type: Some(0x40),
                currency: Some(self.config.feig_config.currency),
                tlv: Some(
                    tlv::PreAuthData {
                        bmp_data: Some(
                            tlv::Bmp60 {
                                bmp_prefix: String::from_str("AC"),
                                bmp_data: String::from_str(token),
                            },
                        ),
                    },
                ),
            },
        )
    }

    fn remove_token(&mut self, token: &str)
        requires
            old(self).wf(),
        ensures
            final(self).wf(),
            !final(self).spec_has_token(token@),
            final(self).config == old(self).config,
            final(self).successfully_configured == old(self).successfully_configured,
            forall|t: Seq<char>|
                t != token@ ==> (final(self).spec_has_token(t) <==> old(self).spec_has_token(t)),
    {
        let idx = match self.find_token(token) {
            None => {
                return ;
            },
            Some(i) => i,
        };
        let ghost before = self.transactions@;
        self.transactions.remove(idx);
        proof {
            let after = self.transactions@;
            assert(after == before.remove(idx as int));
            assert forall|k: int| 0 <= k < after.len() implies after[k] == (if k < idx {
                before[k]
            } else {
                before[k + 1]
            }) by {}
            assert forall|i2: int, j2: int| 0 <= i2 < j2 < after.len() implies (
            #[trigger] after[i2]).0@ != (#[trigger] after[j2]).0@ by {
                let oi = if i2 < idx { i2 } else { i2 + 1 };
                let oj = if j2 < idx { j2 } else { j2 + 1 };
                assert(before[oi] == after[i2] && before[oj] == after[j2]);
            };
            assert forall|k: int| 0 <= k < after.len() implies (#[trigger] after[k]).0@
                != token@ by {
                let ok = if k < idx { k } else { k + 1 };
                assert(before[ok] == after[k]);
                assert(before[idx as int].0@ == token@);
                if before[ok].0@ == token@ {
                    assert(ok != idx);
                }
            };
            assert forall|t: Seq<char>|
                t != token@ implies (final(self).spec_has_token(t) <==> old(
                self,
            ).spec_has_token(t)) by {
                if old(self).spec_has_token(t) {
                    let k = choose|k: int|
                        0 <= k < before.len() && (#[trigger] before[k]).0@ == t;
                    if k < idx {
                        assert(after[k] == before[k]);
                    } else {
                        assert(after[k - 1] == before[k]);
                    }
                }
                if final(self).spec_has_token(t) {
                    let k = choose|k: int|
                        0 <= k < after.len() && (#[trigger] after[k]).0@ == t;
                    let ok = if k < idx { k } else { k + 1 };
                    assert(before[ok] == after[k]);
                }
            };
        }
    }

    /// Ends a commit: without a status message the token is kept so the
    /// caller may retry; with one, the token is removed and the summary is
    /// built from the message: the amount and trace number as they stand,
    /// the date as at least four and the time as at least six decimal
    /// digits, and the terminal identifier as its bare decimal digits.
    pub fn commit_transaction_finish(
        &mut self,
        token: &str,
        status: Option<&packets::StatusInformation>,
    ) -> (r: Option<TransactionSummary>)
        requires
            old(self).wf(),
        ensures
            final(self).wf(),
            status is None ==> *final(self) == *old(self) && r is None,
            status is Some ==> !final(self).spec_has_token(token@),
            final(self).config == old(self).config,
            match status {
                None => r is None,
                Some(data) => r matches Some(s) && {
                    &&& (match data.amount {
                        Some(n) => s.amount == Some(n as u64),
                        None => s.amount is None,
                    })
                    &&& (match data.trace_number {
                        Some(n) => s.trace_number == Some(n as u64),
                        None => s.trace_number is None,
                    })
                    &&& (match data.terminal_id {
                        Some(n) => s.terminal_id matches Some(t) && vstd::utf8::encode_utf8(t@)
                            == dec_min(n as nat),
                        None => s.terminal_id is None,
                    })
                    &&& (match data.date {
                        Some(n) => s.date matches Some(d) && vstd::utf8::encode_utf8(d@)
                            == dec_pad(n as nat, 4),
                        None => s.date is None,
                    })
                    &&& (match data.time {
                        Some(n) => s.time matches Some(d) && vstd::utf8::encode_utf8(d@)
                            == dec_pad(n as nat, 6),
                        None => s.time is None,
                    })
                },
            },
    {
        match status {
            None => None,
            Some(data) => {
                self.remove_token(token);
                Some(
                    TransactionSummary {
                        terminal_id: match data.terminal_id {
                            Some(n) => Some(format_udecimal(n)),
                            None => None,
                        },
                        amount: match data.amount {
                            Some(n) => Some(n as u64),
                            None => None,
                        },
                        trace_number: match data.trace_number {
                            Some(n) => Some(n as u64),
                            None => None,
                        },
                        date: match data.date {
                            Some(n) => Some(format_decimal_pad(n, 4)),
                            None => None,
                        },
                        time: match data.time {
                            Some(n) => Some(format_decimal_pad(n, 6)),
                            None => None,
                        },
                    },
                )
            },
        }
    }

    /// Looks a cancel's receipt number up without touching the map.
    pub fn cancel_transaction_lookup(&self, token: &str) -> (r: Result<usize, Error>)
        ensures
            !self.spec_has_token(token@) <==> r is Err,
            r matches Ok(n) ==> exists|i: int|
                0 <= i < self.transactions@.len() && (#[trigger] self.transactions@[i]).0@
                    == token@ && self.transactions@[i].1.receipt_no == n,
    {
        match self.find_token(token) {
            None => Err(Error::UnknownToken(String::from_str(token))),
            Some(i) => Ok(self.transactions[i].1.receipt_no),
        }
    }

    /// Ends a cancel: the token leaves the map exactly when the reversal
    /// succeeded on the wire.
    pub fn cancel_transaction_finish(&mut self, token: &str, wire_ok: bool)
        requires
            old(self).wf(),
        ensures
            final(self).wf(),
            wire_ok ==> !final(self).spec_has_token(token@),
            !wire_ok ==> *final(self) == *old(self),
            final(self).config == old(self).config,
    {
        if wire_ok {
            self.remove_token(token);
        }
    }

    pub fn transactions_is_empty(&self) -> (r: bool)
        ensures
            r == (self.transactions@.len() == 0),
    {
        self.transactions.len() == 0
    }

    /// Marks the terminal configured; repeated configuration is a no-op.
    pub fn mark_configured(&mut self)
        requires
            old(self).wf(),
        ensures
            final(self).wf(),
            final(self).successfully_configured,
            final(self).transactions@ == old(self).transactions@,
            final(self).config == old(self).config,
    {
        self.successfully_configured = true;
    }

    /// Drops the configured mark, as a reconnect does.
    pub fn mark_unconfigured(&mut self)
        requires
            old(self).wf(),
        ensures
            final(self).wf(),
            !final(self).successfully_configured,
            final(self).transactions@ == old(self).transactions@,
            final(self).config == old(self).config,
    {
        self.successfully_configured = false;
    }
}

/// How an end-of-day event is taken: completion succeeds, an abort with
/// `ReceiverNotReady` is tolerated and also succeeds, any other abort is
/// the terminal's error, and everything else keeps the dialog going.
pub enum EodOutcome {
    Done,
    Continue,
    Failed(u8),
}

pub fn eod_outcome(resp: &EndOfDayResponse) -> (r: EodOutcome)
    ensures
        match resp {
            EndOfDayResponse::CompletionData(_) => r is Done,
            EndOfDayResponse::Abort(a) => {
                if a.error == 0xa0 {
                    r is Done
                } else {
                    r matches EodOutcome::Failed(c) && c == a.error
                }
            },
            _ => r is Continue,
        },
{
    match resp {
        EndOfDayResponse::CompletionData(_) => EodOutcome::Done,
        EndOfDayResponse::Abort(a) => {
            let not_ready = ErrorMessages::ReceiverNotReady.code();
            if a.error == not_ready {
                EodOutcome::Done
            } else {
                EodOutcome::Failed(a.error)
            }
        },
        _ => EodOutcome::Continue,
    }
}

/// The decimal digits of a value, zero-padded to a width, as ASCII codes.
pub open spec fn dec_ascii(v: nat, w: nat) -> Seq<u8> {
    Seq::new(w, |i: int| (48 + (v / crate::length::pow10((w - 1 - i) as nat)) % 10) as u8)
}

/// Renders a number as a fixed-width decimal string, zero-padded in front;
/// only the lowest digits are kept.
pub fn format_decimal(v: usize, w: usize) -> (r: String)
    ensures
        vstd::utf8::encode_utf8(r@) == dec_ascii(v as nat, w as nat),
{
    let digits = crate::length::LlvImpl::serialize(w, v);
    let mut a: Vec<u8> = Vec::new();
    let mut i: usize = 0;
    while i < digits.len()
        invariant
            i <= digits@.len(),
            digits@ == crate::length::llv_len_bytes(w as nat, v as int),
            a@.len() == i,
            forall|j: int| 0 <= j < i ==> a@[j] == (48 + digits@[j]) as u8,
            forall|j: int| 0 <= j < i ==> a@[j] < 0x80,
        decreases digits@.len() - i,
    {
        let d = digits[i];
        proof {
            assert(digits@[i as int] == ((v as nat / crate::length::pow10(
                (w - 1 - i) as nat,
            )) % 10) as u8);
        }
        a.push(48 + d);
        i = i + 1;
    }
    proof {
        assert(a@ =~= dec_ascii(v as nat, w as nat));
        crate::encoding::lemma_ascii_valid_utf8(a@);
    }
    let ghost av = a@;
    match crate::encoding::string_from_utf8(a) {
        Some(s) => {
            proof {
                vstd::utf8::decode_utf8_encode_utf8(av);
            }
            s
        },
        None => {
            proof {
                assert(false);
            }
            String::new()
        },
    }
}

/// The decimal digits of a value with no padding, as ASCII codes; zero is
/// one digit.
pub open spec fn dec_min(v: nat) -> Seq<u8>
    decreases v,
{
    if v < 10 {
        seq![(48 + v) as u8]
    } else {
        dec_min(v / 10) + seq![(48 + v % 10) as u8]
    }
}

/// A value as decimal digits of at least the given width: zero-padded up
/// to the width, all digits when it has more.
pub open spec fn dec_pad(v: nat, w: nat) -> Seq<u8> {
    if v < crate::length::pow10(w) {
        dec_ascii(v, w)
    } else {
        dec_min(v)
    }
}

fn dec_min_bytes(v: usize) -> (r: Vec<u8>)
    ensures
        r@ == dec_min(v as nat),
        forall|j: int| 0 <= j < r@.len() ==> #[trigger] r@[j] < 0x80,
    decreases v,
{
    if v < 10 {
        let mut r: Vec<u8> = Vec::new();
        r.push(48 + v as u8);
        proof {
            assert(r@ =~= dec_min(v as nat));
        }
        r
    } else {
        let mut r = dec_min_bytes(v / 10);
        r.push(48 + (v % 10) as u8);
        proof {
            assert(r@ =~= dec_min(v as nat));
        }
        r
    }
}

/// Renders a number as its bare decimal digits.
pub fn format_udecimal(v: usize) -> (r: String)
    ensures
        vstd::utf8::encode_utf8(r@) == dec_min(v as nat),
{
    let a = dec_min_bytes(v);
    proof {
        crate::encoding::lemma_ascii_valid_utf8(a@);
    }
    let ghost av = a@;
    match crate::encoding::string_from_utf8(a) {
        Some(s) => {
            proof {
                vstd::utf8::decode_utf8_encode_utf8(av);
            }
            s
        },
        None => {
            proof {
                assert(false);
            }
            String::new()
        },
    }
}

fn pow10_exec(w: usize) -> (r: Option<usize>)
    ensures
        r matches Some(v) ==> v == crate::length::pow10(w as nat),
        r is None ==> crate::length::pow10(w as nat) > usize::MAX,
{
    let mut r: usize = 1;
    let mut i: usize = 0;
    while i < w
        invariant
            i <= w,
            r == crate::length::pow10(i as nat),
        decreases w - i,
    {
        if r > usize::MAX / 10 {
            proof {
                crate::length::lemma_pow10_mono(i as nat + 1, w as nat);
                crate::length::lemma_pow10_succ(i as nat);
                assert(r * 10 > usize::MAX) by (nonlinear_arith)
                    requires
                        r > usize::MAX / 10,
                        usize::MAX >= 10,
                ;
            }
            return None;
        }
        proof {
            crate::length::lemma_pow10_succ(i as nat);
            assert(r * 10 <= usize::MAX) by (nonlinear_arith)
                requires
                    r <= usize::MAX / 10,
                    usize::MAX >= 10,
            ;
        }
        r = r * 10;
        i = i + 1;
    }
    Some(r)
}

/// Renders a number as decimal digits of at least the given width,
/// zero-padded in front.
pub fn format_decimal_pad(v: usize, w: usize) -> (r: String)
    requires
        w <= 8,
    ensures
        vstd::utf8::encode_utf8(r@) == dec_pad(v as nat, w as nat),
{
    let below = match pow10_exec(w) {
        Some(p) => v < p,
        None => true,
    };
    if below {
        format_decimal(v, w)
    } else {
        format_udecimal(v)
    }
}

/// Whether two device identifiers name the same device, ignoring ASCII
/// case.
pub fn device_id_matches(expected: &str, received: &str) -> (r: bool)
    ensures
        r == (expected@.map(|i: int, c: char| spec_upper(c)) == received@.map(
            |i: int, c: char| spec_upper(c),
        )),
{
    let n = expected.unicode_len();
    let m = received.unicode_len();
    let ghost eu = expected@.map(|i: int, c: char| spec_upper(c));
    let ghost ru = received@.map(|i: int, c: char| spec_upper(c));
    if n != m {
        proof {
            assert(eu.len() != ru.len());
        }
        return false;
    }
    let mut i: usize = 0;
    while i < n
        invariant
            n == expected@.len(),
            n == received@.len(),
            i <= n,
            eu == expected@.map(|k: int, c: char| spec_upper(c)),
            ru == received@.map(|k: int, c: char| spec_upper(c)),
            forall|k: int| 0 <= k < i ==> eu[k] == ru[k],
        decreases n - i,
    {
        let a = upper_char(expected.get_char(i));
        let b = upper_char(received.get_char(i));
        if a != b {
            proof {
                assert(eu[i as int] != ru[i as int]);
            }
            return false;
        }
        i = i + 1;
    }
    proof {
        assert(eu =~= ru);
    }
    true
}

fn upper_char(c: char) -> (r: char)
    ensures
        r == spec_upper(c),
{
    if c >= 'a' && c <= 'z' {
        proof {
            vstd::utf8::char_is_scalar(c);
            vstd::utf8::char_u32_cast(c, c as u32);
        }
        ((c as u8) - 0x20) as char
    } else {
        c
    }
}

/// The numeric value a string of decimal digits spells.
pub open spec fn spec_dec_val(s: Seq<char>) -> nat
    decreases s.len(),
{
    if s.len() == 0 {
        0
    } else {
        spec_dec_val(s.drop_last()) * 10 + (if '0' <= s.last() <= '9' {
            (s.last() as u32 - 48) as nat
        } else {
            0
        })
    }
}

pub open spec fn spec_all_digits(s: Seq<char>) -> bool {
    s.len() >= 1 && forall|i: int| 0 <= i < s.len() ==> '0' <= #[trigger] s[i] <= '9'
}

/// Parses a nonempty string of decimal digits; anything else, or a value
/// beyond the machine word, is nothing.
pub fn parse_decimal(s: &str) -> (r: Option<usize>)
    ensures
        r matches Some(v) ==> spec_all_digits(s@) && v == spec_dec_val(s@),
        r is None ==> !spec_all_digits(s@) || spec_dec_val(s@) > usize::MAX,
{
    let n = s.unicode_len();
    if n == 0 {
        return None;
    }
    let mut v: usize = 0;
    let mut i: usize = 0;
    while i < n
        invariant
            n == s@.len(),
            i <= n,
            v == spec_dec_val(s@.subrange(0, i as int)),
            spec_dec_val(s@.subrange(0, i as int)) <= usize::MAX,
            forall|k: int| 0 <= k < i ==> '0' <= #[trigger] s@[k] <= '9',
        decreases n - i,
    {
        let c = s.get_char(i);
        if !(c >= '0' && c <= '9') {
            return None;
        }
        proof {
            vstd::utf8::char_is_scalar(c);
            vstd::utf8::char_u32_cast(c, c as u32);
        }
        let d = (c as u32 - 48) as usize;
        if v > usize::MAX / 10 || 10 * v > usize::MAX - d {
            proof {
                let cur = s@.subrange(0, i + 1);
                assert(cur.drop_last() =~= s@.subrange(0, i as int));
                assert(cur.last() == s@[i as int]);
                assert(spec_dec_val(cur) == 10 * v + d);
                lemma_dec_val_grows(s@, i as int);
                assert(10 * v + d > usize::MAX) by (nonlinear_arith)
                    requires
                        v > usize::MAX / 10 || 10 * v > usize::MAX - d,
                        d < 10,
                        usize::MAX >= 10,
                ;
            }
            return None;
        }
        let ghost pre = s@.subrange(0, i as int);
        v = 10 * v + d;
        proof {
            let cur = s@.subrange(0, i + 1);
            assert(cur.drop_last() =~= pre);
            assert(cur.last() == s@[i as int]);
        }
        i = i + 1;
    }
    proof {
        assert(s@.subrange(0, n as int) =~= s@);
    }
    Some(v)
}

/// A longer digit prefix never spells a smaller value.
proof fn lemma_dec_val_grows(s: Seq<char>, i: int)
    requires
        0 <= i < s.len(),
    ensures
        spec_dec_val(s) >= spec_dec_val(s.subrange(0, i + 1)),
    decreases s.len() - i,
{
    if i + 1 == s.len() {
        assert(s.subrange(0, i + 1) =~= s);
    } else {
        lemma_dec_val_grows(s, i + 1);
        assert(s.subrange(0, i + 2).drop_last() =~= s.subrange(0, i + 1));
    }
}

/// Builds the request that sets the terminal identifier, or nothing when
/// the reported identifier already equals the configured one.
pub fn set_terminal_id_request(config: &Config, reported: &str) -> (r: Option<
    packets::SetTerminalId,
>)
    ensures
        r is None <==> reported@ == config.terminal_id@,
        r matches Some(req) ==> req.password == config.feig_config.password
            && req.terminal_id == (match parse_spec(config.terminal_id@) {
            Some(v) => Some(v),
            None => None,
        }),
{
    if String::from_str(reported).eq(&config.terminal_id) {
        return None;
    }
    let parsed = parse_decimal(config.terminal_id.as_str());
    Some(
        packets::SetTerminalId {
            password: config.feig_config.password,
            terminal_id: parsed,
        },
    )
}

/// What `parse_decimal` yields, at the specification level.
pub open spec fn parse_spec(s: Seq<char>) -> Option<usize> {
    if spec_all_digits(s) && spec_dec_val(s) <= usize::MAX {
        Some(spec_dec_val(s) as usize)
    } else {
        None
    }
}

/// After the identifier was set, the terminal must report the configured
/// one; anything else is a mismatch.
pub fn set_terminal_id_verify(config: &Config, reported: &str) -> (r: Result<(), Error>)
    ensures
        r is Err <==> reported@ != config.terminal_id@,
{
    if String::from_str(reported).eq(&config.terminal_id) {
        Ok(())
    } else {
        Err(Error::TidMismatch)
    }
}

/// How a read-card abort is taken: the timeout-or-abort-key code means no
/// card was presented; any other code is the terminal's own error.
#[derive(Debug, PartialEq, Eq, Structural)]
pub enum ReadCardAbort {
    NoCardPresented,
    Terminal(u8),
}

pub fn read_card_abort_outcome(error: u8) -> (r: ReadCardAbort)
    ensures
        r == if error == 0x6c {
            ReadCardAbort::NoCardPresented
        } else {
            ReadCardAbort::Terminal(error)
        },
{
    let timeout = ErrorMessages::AbortViaTimeoutOrAbortKey.code();
    if error == timeout {
        ReadCardAbort::NoCardPresented
    } else {
        ReadCardAbort::Terminal(error)
    }
}

/// Whether a read-card call must first run the end-of-day job: the
/// interval has passed and no transaction is open.
pub fn end_of_day_due(elapsed_secs: u64, max_interval: u64, transactions_empty: bool) -> (r:
    bool)
    ensures
        r == (elapsed_secs >= max_interval && transactions_empty),
{
    elapsed_secs >= max_interval && transactions_empty
}

/// Whether the needle occurs inside the haystack; version checks use
/// containment because the reported version carries a language prefix.
pub fn version_matches(current: &str, desired: &str) -> (r: bool)
    ensures
        r == exists|i: int|
            0 <= i <= current@.len() - desired@.len() && #[trigger] current@.subrange(
                i,
                i + desired@.len(),
            ) == desired@,
{
    let n = current.unicode_len();
    let m = desired.unicode_len();
    if m > n {
        proof {
            assert forall|i: int|
                !(0 <= i <= current@.len() - desired@.len() && #[trigger] current@.subrange(
                    i,
                    i + desired@.len(),
                ) == desired@) by {}
        }
        return false;
    }
    if m == 0 {
        proof {
            assert(current@.subrange(0, 0 + desired@.len() as int) =~= desired@);
        }
        return true;
    }
    let mut i: usize = 0;
    while i <= n - m
        invariant
            1 <= m <= n,
            n == current@.len(),
            m == desired@.len(),
            i <= n - m + 1,
            forall|k: int|
                0 <= k < i ==> #[trigger] current@.subrange(k, k + desired@.len()) != desired@,
        decreases n - m + 1 - i,
    {
        let w = current.substring_char(i, i + m);
        if String::from_str(w).eq(&String::from_str(desired)) {
            proof {
                assert(current@.subrange(i as int, i as int + m) == desired@);
            }
            return true;
        }
        i = i + 1;
    }
    false
}


/// Whether one byte sequence begins with another.
pub open spec fn spec_starts_with(a: Seq<u8>, b: Seq<u8>) -> bool {
    a.len() >= b.len() && a.subrange(0, b.len() as int) == b
}

fn bytes_start_with(a: &Vec<u8>, b: &Vec<u8>) -> (r: bool)
    ensures
        r == spec_starts_with(a@, b@),
{
    if a.len() < b.len() {
        return false;
    }
    let mut i: usize = 0;
    while i < b.len()
        invariant
            b@.len() <= a@.len(),
            i <= b@.len(),
            forall|k: int| 0 <= k < i ==> a@[k] == b@[k],
        decreases b@.len() - i,
    {
        if a[i] != b[i] {
            proof {
                assert(a@.subrange(0, b@.len() as int)[i as int] != b@[i as int]);
            }
            return false;
        }
        i = i + 1;
    }
    proof {
        assert(a@.subrange(0, b@.len() as int) =~= b@);
    }
    true
}

/// ASCII uppercase of one byte.
pub open spec fn spec_upper_byte(b: u8) -> u8 {
    if 0x61 <= b <= 0x7a {
        (b - 0x20) as u8
    } else {
        b
    }
}

/// A membership card's normalized tag id, over the raw bytes of the
/// reported identifier: uppercased; and when longer than fourteen places,
/// cut to the last fourteen and stripped of a leading run of six zeros.
pub open spec fn spec_normalize_uuid(b: Seq<u8>) -> Seq<u8> {
    let u = b.map(|i: int, x: u8| spec_upper_byte(x));
    if u.len() > 14 {
        let t = u.subrange(u.len() - 14, u.len() as int);
        if spec_starts_with(t, seq![48u8, 48u8, 48u8, 48u8, 48u8, 48u8]) {
            t.subrange(6, 14)
        } else {
            t
        }
    } else {
        u
    }
}

fn normalize_uuid_bytes(b: &Vec<u8>) -> (r: Vec<u8>)
    ensures
        r@ == spec_normalize_uuid(b@),
{
    let mut u: Vec<u8> = Vec::new();
    let mut i: usize = 0;
    proof {
        assert(u@ =~= b@.subrange(0, 0).map(|k: int, x: u8| spec_upper_byte(x)));
    }
    while i < b.len()
        invariant
            i <= b@.len(),
            u@ == b@.subrange(0, i as int).map(|k: int, x: u8| spec_upper_byte(x)),
        decreases b@.len() - i,
    {
        let x = b[i];
        let ux = if x >= 0x61 && x <= 0x7a {
            x - 0x20
        } else {
            x
        };
        u.push(ux);
        proof {
            assert(u@ =~= b@.subrange(0, i + 1).map(|k: int, x2: u8| spec_upper_byte(x2)));
        }
        i = i + 1;
    }
    proof {
        assert(b@.subrange(0, b@.len() as int) =~= b@);
    }
    if u.len() > 14 {
        let t = encoding::copy_range(u.as_slice(), u.len() - 14, u.len());
        let mut zeros: Vec<u8> = Vec::new();
        let mut z: usize = 0;
        while z < 6
            invariant
                z <= 6,
                zeros@.len() == z,
                forall|k: int| 0 <= k < z ==> zeros@[k] == 48u8,
            decreases 6 - z,
        {
            zeros.push(48);
            z = z + 1;
        }
        proof {
            assert(zeros@ =~= seq![48u8, 48u8, 48u8, 48u8, 48u8, 48u8]);
        }
        if bytes_start_with(&t, &zeros) {
            let r = encoding::copy_range(t.as_slice(), 6, t.len());
            proof {
                assert(r@ =~= spec_normalize_uuid(b@));
            }
            r
        } else {
            t
        }
    } else {
        u
    }
}

/// What a status message says about the card that was read: an application
/// outside the deny list makes it a bank card; otherwise a reported
/// identifier makes it a membership card under its normalized id; anything
/// else is incomplete data.
pub open spec fn spec_bank_card(block: tlv::StatusInformation, deny: Seq<Seq<u8>>) -> bool {
    exists|i: int|
        0 <= i < block.subs@.len() && match (#[trigger] block.subs@[i]).application_id {
            Some(a) => forall|j: int|
                0 <= j < deny.len() ==> !spec_starts_with(
                    vstd::utf8::encode_utf8(a@),
                    #[trigger] deny[j],
                ),
            None => false,
        }
}

pub fn classify_card(block: &tlv::StatusInformation, deny: &Vec<String>) -> (r: Result<
    CardInfo,
    ZVTError,
>)
    ensures
        ({
            let denyv = deny@.map(|i: int, s: String| vstd::utf8::encode_utf8(s@));
            &&& spec_bank_card(*block, denyv) ==> r == Ok::<_, ZVTError>(CardInfo::Bank)
            &&& !spec_bank_card(*block, denyv) && block.uuid is None ==> r == Err::<
                CardInfo,
                _,
            >(ZVTError::IncompleteData)
            &&& (match block.uuid {
                Some(u) => !spec_bank_card(*block, denyv) ==> (if vstd::utf8::valid_utf8(
                    spec_normalize_uuid(vstd::utf8::encode_utf8(u@)),
                ) {
                    r matches Ok(c) && (c matches CardInfo::MembershipCard(s)
                        && vstd::utf8::encode_utf8(s@) == spec_normalize_uuid(
                        vstd::utf8::encode_utf8(u@),
                    ))
                } else {
                    r == Err::<CardInfo, _>(ZVTError::IncompleteData)
                }),
                None => true,
            })
        }),
{
    let ghost denyv = deny@.map(|i: int, s2: String| vstd::utf8::encode_utf8(s2@));
    let mut i: usize = 0;
    while i < block.subs.len()
        invariant
            i <= block.subs@.len(),
            denyv == deny@.map(|k: int, s2: String| vstd::utf8::encode_utf8(s2@)),
            forall|k: int|
                0 <= k < i ==> match (#[trigger] block.subs@[k]).application_id {
                    Some(a) => exists|j: int|
                        0 <= j < denyv.len() && spec_starts_with(
                            vstd::utf8::encode_utf8(a@),
                            #[trigger] denyv[j],
                        ),
                    None => true,
                },
        decreases block.subs@.len() - i,
    {
        match &block.subs[i].application_id {
            Some(a) => {
                let ab = encoding::str_bytes(a.as_str());
                let mut denied = false;
                let mut j: usize = 0;
                while j < deny.len()
                    invariant
                        j <= deny@.len(),
                        denyv == deny@.map(|k: int, s2: String| vstd::utf8::encode_utf8(s2@)),
                        ab@ == vstd::utf8::encode_utf8(a@),
                        denied ==> exists|k: int|
                            0 <= k < denyv.len() && spec_starts_with(ab@, #[trigger] denyv[k]),
                        !denied ==> forall|k: int|
                            0 <= k < j ==> !spec_starts_with(ab@, #[trigger] denyv[k]),
                    decreases deny@.len() - j,
                {
                    let pb = encoding::str_bytes(deny[j].as_str());
                    if bytes_start_with(&ab, &pb) {
                        proof {
                            assert(denyv[j as int] == pb@);
                        }
                        denied = true;
                    }
                    j = j + 1;
                }
                if !denied {
                    proof {
                        assert(spec_bank_card(*block, denyv)) by {
                            assert(0 <= i < block.subs@.len());
                        };
                    }
                    return Ok(CardInfo::Bank);
                }
            },
            None => {},
        }
        i = i + 1;
    }
    proof {
        assert(!spec_bank_card(*block, denyv)) by {
            if spec_bank_card(*block, denyv) {
                let k = choose|k: int|
                    0 <= k < block.subs@.len() && match (#[trigger] block.subs@[k]).application_id {
                        Some(a) => forall|j: int|
                            0 <= j < denyv.len() ==> !spec_starts_with(
                                vstd::utf8::encode_utf8(a@),
                                #[trigger] denyv[j],
                            ),
                        None => false,
                    };
            }
        };
    }
    match &block.uuid {
        None => Err(ZVTError::IncompleteData),
        Some(u) => {
            let ub = encoding::str_bytes(u.as_str());
            let nb = normalize_uuid_bytes(&ub);
            let ghost nbv = nb@;
            match encoding::string_from_utf8(nb) {
                Some(s) => {
                    proof {
                        vstd::utf8::decode_utf8_encode_utf8(nbv);
                    }
                    Ok(CardInfo::MembershipCard(s))
                },
                None => Err(ZVTError::IncompleteData),
            }
        },
    }
}

} // verus!
