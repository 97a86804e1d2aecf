//! UCI options: the engine's settings, how they are set by name, and how
//! they are announced.

use vstd::prelude::*;
use vstd::string::StringSliceAdditionalSpecFns;
use vstd::string::StringExecFns;

use crate::position::fen::{digits_value, int_text, is_digit, push_decimal};
use crate::types::push_char;

verus! {

/// `b` with ASCII upper-case letters made lower case.
pub open spec fn lower(b: u8) -> u8 {
    if 65 <= b <= 90 {
        (b + 32) as u8
    } else {
        b
    }
}

/// The bytes of `s` with ASCII upper-case letters made lower case.
pub open spec fn lower_bytes(s: Seq<u8>) -> Seq<u8> {
    Seq::new(s.len(), |i: int| lower(s[i]))
}

/// Whether `b`, ignoring ASCII case, is the lower-case word `w`.
fn is_word(b: &[u8], w: &[u8]) -> (r: bool)
    ensures
        r == (lower_bytes(b@) == w@),
{
    if b.len() != w.len() {
        proof {
            assert(lower_bytes(b@).len() != w@.len());
        }
        return false;
    }
    let mut i: usize = 0;
    while i < b.len()
        invariant
            b.len() == w.len(),
            i <= b.len(),
            forall|j: int| 0 <= j < i ==> lower(b@[j]) == w@[j],
        decreases b.len() - i,
    {
        let c = b[i];
        let l = if 65 <= c && c <= 90 {
            c + 32
        } else {
            c
        };
        if l != w[i] {
            proof {
                assert(lower_bytes(b@)[i as int] != w@[i as int]);
            }
            return false;
        }
        i = i + 1;
    }
    proof {
        assert(lower_bytes(b@) =~= w@);
    }
    true
}

/// What std's `i64::from_str` reads from `v`: an optional `+` or `-`, then
/// one or more decimal digits and nothing else, within the range of `i64`.
pub open spec fn parse_i64_spec(v: Seq<u8>) -> Option<int> {
    let signed = v.len() > 0 && (v[0] == 45 || v[0] == 43);
    let start = if signed {
        1int
    } else {
        0int
    };
    if start >= v.len() || !(forall|k: int| start <= k < v.len() ==> is_digit(#[trigger] v[k])) {
        None
    } else {
        let mag = digits_value(v, start, v.len() as int);
        let val = if v[0] == 45 {
            -mag
        } else {
            mag
        };
        if i64::MIN <= val <= i64::MAX {
            Some(val)
        } else {
            None
        }
    }
}

/// Reads a decimal `i64` as std's `i64::from_str` does.
fn parse_i64(v: &[u8]) -> (r: Option<i64>)
    ensures
        match r {
            Some(x) => parse_i64_spec(v@) == Some(x as int),
            None => parse_i64_spec(v@) is None,
        },
{
    let n = v.len();
    if n == 0 {
        return None;
    }
    let neg = v[0] == 45;
    let start: usize = if v[0] == 45 || v[0] == 43 {
        1
    } else {
        0
    };
    if start >= n {
        return None;
    }
    let mut mag: u64 = 0;
    let mut over = false;
    let mut i = start;
    while i < n
        invariant
            start <= i <= n,
            n == v@.len(),
            start as int == (if v@.len() > 0 && (v@[0] == 45 || v@[0] == 43) {
                1int
            } else {
                0int
            }),
            forall|k: int| start <= k < i ==> is_digit(#[trigger] v@[k]),
            !over ==> mag == digits_value(v@, start as int, i as int),
            mag <= 0x8000_0000_0000_0000,
            over ==> digits_value(v@, start as int, i as int) > 0x8000_0000_0000_0000,
        decreases n - i,
    {
        let c = v[i];
        if c < 48 || c > 57 {
            proof {
                assert(!is_digit(v@[i as int]));
            }
            return None;
        }
        proof {
            crate::position::fen::lemma_digits_nonneg(v@, start as int, i as int);
        }
        let d = (c - 48) as u64;
        if !over {
            if mag > 922_337_203_685_477_580 || (mag == 922_337_203_685_477_580 && d > 8) {
                over = true;
            } else {
                mag = mag * 10 + d;
            }
        }
        i = i + 1;
    }
    if over {
        return None;
    }
    if neg {
        if mag == 0x8000_0000_0000_0000 {
            Some(i64::MIN)
        } else {
            Some(-(mag as i64))
        }
    } else if mag > 0x7fff_ffff_ffff_ffff {
        None
    } else {
        Some(mag as i64)
    }
}

/// Why an option could not be set.
#[derive(Debug)]
pub enum OptionError {
    /// No option has this name.
    UnknownOption(String),
    /// The value does not fit the option.
    InvalidValue { name: String, reason: String },
}

/// An option as announced to a UCI front end.
#[derive(Debug, Clone)]
pub enum UciOption {
    Spin { name: String, default: i64, min: i64, max: i64 },
    Check { name: String, default: bool },
    String { name: String, default: String },
    Button { name: String },
}

/// The UCI line announcing `o`.
pub open spec fn option_text(o: UciOption) -> Seq<char> {
    match o {
        UciOption::Spin { name, default, min, max } => "option name "@ + name@
            + " type spin default "@ + int_text(default as int) + " min "@ + int_text(min as int)
            + " max "@ + int_text(max as int),
        UciOption::Check { name, default } => "option name "@ + name@ + " type check default "@
            + (if default {
            "true"@
        } else {
            "false"@
        }),
        UciOption::String { name, default } => "option name "@ + name@
            + " type string default "@ + (if default@.len() == 0 {
            "<empty>"@
        } else {
            default@
        }),
        UciOption::Button { name } => "option name "@ + name@ + " type button"@,
    }
}

/// Appends `n` in decimal.
fn push_i64(s: &mut String, n: i64)
    ensures
        final(s)@ == old(s)@ + int_text(n as int),
{
    if n < 0 {
        push_char(s, '-');
        let m = (-(n as i128)) as u64;
        push_decimal(s, m);
        proof {
            assert(final(s)@ =~= old(s)@ + int_text(n as int));
        }
    } else {
        push_decimal(s, n as u64);
    }
}

impl UciOption {
    /// The UCI line announcing the option.
    pub fn to_uci_string(&self) -> (s: String)
        ensures
            s@ == option_text(*self),
    {
        let mut s = String::new();
        s.append("option name ");
        match self {
            UciOption::Spin { name, default, min, max } => {
                s.append(name.as_str());
                s.append(" type spin default ");
                push_i64(&mut s, *default);
                s.append(" min ");
                push_i64(&mut s, *min);
                s.append(" max ");
                push_i64(&mut s, *max);
            },
            UciOption::Check { name, default } => {
                s.append(name.as_str());
                s.append(" type check default ");
                if *default {
                    s.append("true");
                } else {
                    s.append("false");
                }
            },
            UciOption::String { name, default } => {
                s.append(name.as_str());
                s.append(" type string default ");
                if default.as_str().is_empty() {
                    s.append("<empty>");
                } else {
                    s.append(default.as_str());
                }
            },
            UciOption::Button { name } => {
                s.append(name.as_str());
                s.append(" type button");
            },
        }
        proof {
            assert(s@ =~= option_text(*self));
        }
        s
    }
}

/// The engine's settings.
#[derive(Debug, Clone, Copy, PartialEq, Eq, Structural)]
pub struct EngineOptions {
    pub hash_mb: usize,
    pub threads: usize,
    pub multi_pv: usize,
    pub move_overhead: i32,
    pub ponder: bool,
    pub show_wdl: bool,
}

impl Default for EngineOptions {
    fn default() -> (o: Self)
        ensures
            o == (EngineOptions {
                hash_mb: 16,
                threads: 1,
                multi_pv: 1,
                move_overhead: 10,
                ponder: false,
                show_wdl: false,
            }),
    {
        EngineOptions {
            hash_mb: 16,
            threads: 1,
            multi_pv: 1,
            move_overhead: 10,
            ponder: false,
            show_wdl: false,
        }
    }
}

/// Largest hash table size, in MiB.
pub const MAX_HASH_MB: i64 = 65536;

/// Most search threads.
pub const MAX_THREADS: i64 = 1024;

/// Most principal variations.
pub const MAX_MULTI_PV: i64 = 500;

/// Largest move overhead, in milliseconds.
pub const MAX_MOVE_OVERHEAD: i64 = 5000;

/// Which option a name selects, ignoring ASCII case: 0 hash, 1 threads,
/// 2 multipv, 3 move overhead, 4 ponder, 5 uci_showwdl, -1 none.
pub open spec fn option_slot(name: Seq<u8>) -> int {
    let l = lower_bytes(name);
    if l == seq![104u8, 97, 115, 104] {
        0
    } else if l == seq![116u8, 104, 114, 101, 97, 100, 115] {
        1
    } else if l == seq![109u8, 117, 108, 116, 105, 112, 118] {
        2
    } else if l == seq![109u8, 111, 118, 101, 32, 111, 118, 101, 114, 104, 101, 97, 100] {
        3
    } else if l == seq![112u8, 111, 110, 100, 101, 114] {
        4
    } else if l == seq![117u8, 99, 105, 95, 115, 104, 111, 119, 119, 100, 108] {
        5
    } else {
        -1
    }
}

/// The least value of a numeric option.
pub open spec fn spin_min(slot: int) -> int {
    if slot == 3 {
        0
    } else {
        1
    }
}

/// The greatest value of a numeric option.
pub open spec fn spin_max(slot: int) -> int {
    if slot == 0 {
        MAX_HASH_MB as int
    } else if slot == 1 {
        MAX_THREADS as int
    } else if slot == 2 {
        MAX_MULTI_PV as int
    } else {
        MAX_MOVE_OVERHEAD as int
    }
}

/// `true` or `false`, ignoring ASCII case.
pub open spec fn check_value(v: Seq<u8>) -> Option<bool> {
    let l = lower_bytes(v);
    if l == seq![116u8, 114, 117, 101] {
        Some(true)
    } else if l == seq![102u8, 97, 108, 115, 101] {
        Some(false)
    } else {
        None
    }
}

/// The settings after setting option `name` to `value`, or `None` when the
/// name is unknown or the value does not fit.
pub open spec fn set_spec(o: EngineOptions, name: Seq<u8>, value: Seq<u8>) -> Option<EngineOptions> {
    let slot = option_slot(name);
    if 0 <= slot <= 3 {
        match parse_i64_spec(value) {
            Some(v) => if spin_min(slot) <= v <= spin_max(slot) {
                Some(
                    if slot == 0 {
                        EngineOptions { hash_mb: v as usize, ..o }
                    } else if slot == 1 {
                        EngineOptions { threads: v as usize, ..o }
                    } else if slot == 2 {
                        EngineOptions { multi_pv: v as usize, ..o }
                    } else {
                        EngineOptions { move_overhead: v as i32, ..o }
                    },
                )
            } else {
                None
            },
            None => None,
        }
    } else if slot == 4 || slot == 5 {
        match check_value(value) {
            Some(b) => Some(
                if slot == 4 {
                    EngineOptions { ponder: b, ..o }
                } else {
                    EngineOptions { show_wdl: b, ..o }
                },
            ),
            None => None,
        }
    } else {
        None
    }
}

/// Whether `name` selects the MultiPV option (ignoring ASCII case).
pub fn names_multi_pv(name: &str) -> (r: bool)
    ensures
        r == (option_slot(name.spec_bytes()) == 2),
{
    let r = is_word(name.as_bytes(), &[109u8, 117, 108, 116, 105, 112, 118]);
    proof {
        let l = lower_bytes(name.spec_bytes());
        let w = seq![109u8, 117, 108, 116, 105, 112, 118];
        if r {
            assert(l == w);
            assert(l.len() != seq![104u8, 97, 115, 104].len());
            assert(l[0] != seq![116u8, 104, 114, 101, 97, 100, 115][0]);
        }
    }
    r
}

/// Reads a spin value within `[min, max]`.
fn parse_spin(name: &str, value: &str, min: i64, max: i64) -> (r: Result<i64, OptionError>)
    ensures
        match r {
            Ok(v) => parse_i64_spec(value.spec_bytes()) == Some(v as int) && min <= v <= max,
            Err(e) => e is InvalidValue && match parse_i64_spec(value.spec_bytes()) {
                Some(v) => !(min <= v <= max),
                None => true,
            },
        },
{
    match parse_i64(value.as_bytes()) {
        Some(v) => {
            if v < min || v > max {
                Err(
                    OptionError::InvalidValue {
                        name: name.to_owned(),
                        reason: "value out of range".to_owned(),
                    },
                )
            } else {
                Ok(v)
            }
        },
        None => Err(
            OptionError::InvalidValue {
                name: name.to_owned(),
                reason: "expected integer".to_owned(),
            },
        ),
    }
}

/// Reads `true` or `false`, ignoring ASCII case.
fn parse_check(name: &str, value: &str) -> (r: Result<bool, OptionError>)
    ensures
        match r {
            Ok(b) => check_value(value.spec_bytes()) == Some(b),
            Err(e) => e is InvalidValue && check_value(value.spec_bytes()) is None,
        },
{
    let v = value.as_bytes();
    if is_word(v, &[116u8, 114, 117, 101]) {
        Ok(true)
    } else if is_word(v, &[102u8, 97, 108, 115, 101]) {
        Ok(false)
    } else {
        Err(
            OptionError::InvalidValue {
                name: name.to_owned(),
                reason: "expected 'true' or 'false'".to_owned(),
            },
        )
    }
}

impl EngineOptions {
    /// Sets the option `name` (ignoring ASCII case) to `value`. On an error
    /// the settings are left as they were.
    pub fn set(&mut self, name: &str, value: &str) -> (r: Result<(), OptionError>)
        ensures
            r is Ok <==> set_spec(*old(self), name.spec_bytes(), value.spec_bytes()) is Some,
            r is Ok ==> *final(self) == set_spec(*old(self), name.spec_bytes(), value.spec_bytes()).unwrap(),
            r is Err ==> *final(self) == *old(self),
            (r matches Err(OptionError::UnknownOption(_))) <==> option_slot(name.spec_bytes()) == -1,
    {
        let n = name.as_bytes();
        if is_word(n, &[104u8, 97, 115, 104]) {
            let v = parse_spin(name, value, 1, MAX_HASH_MB)?;
            self.hash_mb = v as usize;
        } else if is_word(n, &[116u8, 104, 114, 101, 97, 100, 115]) {
            let v = parse_spin(name, value, 1, MAX_THREADS)?;
            self.threads = v as usize;
        } else if is_word(n, &[109u8, 117, 108, 116, 105, 112, 118]) {
            let v = parse_spin(name, value, 1, MAX_MULTI_PV)?;
            self.multi_pv = v as usize;
        } else if is_word(n, &[109u8, 111, 118, 101, 32, 111, 118, 101, 114, 104, 101, 97, 100]) {
            let v = parse_spin(name, value, 0, MAX_MOVE_OVERHEAD)?;
            self.move_overhead = v as i32;
        } else if is_word(n, &[112u8, 111, 110, 100, 101, 114]) {
            self.ponder = parse_check(name, value)?;
        } else if is_word(n, &[117u8, 99, 105, 95, 115, 104, 111, 119, 119, 100, 108]) {
            self.show_wdl = parse_check(name, value)?;
        } else {
            return Err(OptionError::UnknownOption(name.to_owned()));
        }
        Ok(())
    }

    /// The options the engine announces, in order: Hash, Threads, MultiPV,
    /// Move Overhead, Ponder and UCI_ShowWDL.
    pub fn uci_options() -> (v: Vec<UciOption>)
        ensures
            v@.len() == 6,
            v@[0] matches UciOption::Spin { name, default, min, max } && name@ == "Hash"@ && default
                == 16 && min == 1 && max == MAX_HASH_MB,
            v@[1] matches UciOption::Spin { name, default, min, max } && name@ == "Threads"@
                && default == 1 && min == 1 && max == MAX_THREADS,
            v@[2] matches UciOption::Spin { name, default, min, max } && name@ == "MultiPV"@
                && default == 1 && min == 1 && max == MAX_MULTI_PV,
            v@[3] matches UciOption::Spin { name, default, min, max } && name@ == "Move Overhead"@
                && default == 10 && min == 0 && max == MAX_MOVE_OVERHEAD,
            v@[4] matches UciOption::Check { name, default } && name@ == "Ponder"@ && !default,
            v@[5] matches UciOption::Check { name, default } && name@ == "UCI_ShowWDL"@ && !default,
    {
        let mut v: Vec<UciOption> = Vec::new();
        v.push(UciOption::Spin { name: "Hash".to_owned(), default: 16, min: 1, max: MAX_HASH_MB });
        v.push(
            UciOption::Spin { name: "Threads".to_owned(), default: 1, min: 1, max: MAX_THREADS },
        );
        v.push(
            UciOption::Spin { name: "MultiPV".to_owned(), default: 1, min: 1, max: MAX_MULTI_PV },
        );
        v.push(
            UciOption::Spin {
                name: "Move Overhead".to_owned(),
                default: 10,
                min: 0,
                max: MAX_MOVE_OVERHEAD,
            },
        );
        v.push(UciOption::Check { name: "Ponder".to_owned(), default: false });
        v.push(UciOption::Check { name: "UCI_ShowWDL".to_owned(), default: false });
        v
    }
}

} // verus!
