//! The atomic leaf value: a tagged scalar with store, swap,
//! compare-and-swap and fetch-add/sub operations on its atomic variants.

use vstd::prelude::*;
use crate::constants::VBIN_NOTHING;
use crate::constants::VBIN_BOOL;
use crate::constants::VBIN_ABOOL;
use crate::constants::VBIN_UINT;
use crate::constants::VBIN_AUINT;
use crate::constants::VBIN_IINT;
use crate::constants::VBIN_AIINT;
use crate::errors::FlotonErr;
use crate::errors::FlotonErrView;
use crate::traits::InPutOutPut;
use crate::fast_output::spec_le_bytes_u64;
use crate::fast_output::spec_le_u64_at;
use crate::fast_output::push_u64_le;
use crate::fast_output::read_u64_le;

verus! {

/// Memory-ordering hint handed to the atomic operations.  The sequential
/// semantics of every operation is independent of the hint; it is kept so
/// that call sites state the ordering the wire protocol assigns them.
#[derive(Clone, Copy, Debug)]
pub enum MemOrder {
    Relaxed,
    Release,
    Acquire,
    SeqCst,
}

/// A typed scalar leaf.  Variants prefixed with `A` are the atomic cells;
/// the others are plain snapshots.
#[derive(Debug)]
pub enum Value {
    Nothing,
    Bool(bool),
    ABool(bool),
    UInt(u64),
    AUInt(u64),
    IInt(i64),
    AIInt(i64),
}

impl Value {
    /// Total coercion to bool: numbers are true when non-zero, `Nothing`
    /// is false.
    pub open spec fn spec_to_bool(self) -> bool {
        match self {
            Value::Nothing => false,
            Value::Bool(b) => b,
            Value::ABool(b) => b,
            Value::UInt(n) => n != 0,
            Value::AUInt(n) => n != 0,
            Value::IInt(n) => n != 0,
            Value::AIInt(n) => n != 0,
        }
    }

    /// Total coercion to u64: bool is 0/1, signed values keep their
    /// two's-complement bits.
    pub open spec fn spec_to_uint(self) -> u64 {
        match self {
            Value::Nothing => 0,
            Value::Bool(b) => if b {
                1
            } else {
                0
            },
            Value::ABool(b) => if b {
                1
            } else {
                0
            },
            Value::UInt(n) => n,
            Value::AUInt(n) => n,
            Value::IInt(n) => n as u64,
            Value::AIInt(n) => n as u64,
        }
    }

    /// Total coercion to i64: bool is 0/1, unsigned values keep their
    /// two's-complement bits.
    pub open spec fn spec_to_iint(self) -> i64 {
        match self {
            Value::Nothing => 0,
            Value::Bool(b) => if b {
                1
            } else {
                0
            },
            Value::ABool(b) => if b {
                1
            } else {
                0
            },
            Value::UInt(n) => n as i64,
            Value::AUInt(n) => n as i64,
            Value::IInt(n) => n,
            Value::AIInt(n) => n,
        }
    }

    /// The type tag reported when an atomic operation hits a non-atomic
    /// variant.
    pub open spec fn spec_type_tag(self) -> u8 {
        match self {
            Value::Nothing => VBIN_NOTHING,
            Value::Bool(_) => VBIN_BOOL,
            Value::ABool(_) => VBIN_ABOOL,
            Value::UInt(_) => VBIN_UINT,
            Value::AUInt(_) => VBIN_AUINT,
            Value::IInt(_) => VBIN_IINT,
            Value::AIInt(_) => VBIN_AIINT,
        }
    }

    /// The type tag reported when fetch-add or fetch-sub hits a variant
    /// that does not support them: `Nothing` reports itself, every other
    /// unsupported variant reports the unsigned-integer tag.
    pub open spec fn spec_fetch_err_tag(self) -> u8 {
        if self is Nothing {
            VBIN_NOTHING
        } else {
            VBIN_UINT
        }
    }

    pub fn to_bool(&self) -> (r: bool)
        ensures
            r == self.spec_to_bool(),
    {
        match self {
            Value::Nothing => false,
            Value::Bool(b) => *b,
            Value::ABool(b) => *b,
            Value::UInt(n) => *n != 0,
            Value::AUInt(n) => *n != 0,
            Value::IInt(n) => *n != 0,
            Value::AIInt(n) => *n != 0,
        }
    }

    pub fn to_uint(&self) -> (r: u64)
        ensures
            r == self.spec_to_uint(),
    {
        match self {
            Value::Nothing => 0,
            Value::Bool(b) => if *b {
                1
            } else {
                0
            },
            Value::ABool(b) => if *b {
                1
            } else {
                0
            },
            Value::UInt(n) => *n,
            Value::AUInt(n) => *n,
            Value::IInt(n) => *n as u64,
            Value::AIInt(n) => *n as u64,
        }
    }

    pub fn to_iint(&self) -> (r: i64)
        ensures
            r == self.spec_to_iint(),
    {
        match self {
            Value::Nothing => 0,
            Value::Bool(b) => if *b {
                1
            } else {
                0
            },
            Value::ABool(b) => if *b {
                1
            } else {
                0
            },
            Value::UInt(n) => *n as i64,
            Value::AUInt(n) => *n as i64,
            Value::IInt(n) => *n,
            Value::AIInt(n) => *n,
        }
    }

    /// The value after a `store` of `other`, or `None` when the target is
    /// not atomic.
    pub open spec fn spec_store(self, other: Value) -> Option<Value> {
        match self {
            Value::ABool(_) => Some(Value::ABool(other.spec_to_bool())),
            Value::AUInt(_) => Some(Value::AUInt(other.spec_to_uint())),
            Value::AIInt(_) => Some(Value::AIInt(other.spec_to_iint())),
            _ => None,
        }
    }

    /// Writes `other`, coerced to the target's scalar type, into an atomic
    /// variant; a non-atomic target is left unchanged and reported.
    pub fn store(&mut self, other: &Value, order: MemOrder, key: &Vec<u8>) -> (r: Result<
        (),
        FlotonErr,
    >)
        ensures
            match (*old(self)).spec_store(*other) {
                Some(v) => *final(self) == v && r is Ok,
                None => *final(self) == *old(self) && (r matches Err(e) && e@
                    == FlotonErrView::TypeNotAtomic(key@, (*old(self)).spec_type_tag())),
            },
    {
        match self {
            Value::ABool(b) => {
                *b = other.to_bool();
                Ok(())
            },
            Value::AUInt(n) => {
                *n = other.to_uint();
                Ok(())
            },
            Value::AIInt(n) => {
                *n = other.to_iint();
                Ok(())
            },
            Value::Nothing => Err(FlotonErr::TypeNotAtomic(key.clone(), VBIN_NOTHING)),
            Value::Bool(_) => Err(FlotonErr::TypeNotAtomic(key.clone(), VBIN_BOOL)),
            Value::UInt(_) => Err(FlotonErr::TypeNotAtomic(key.clone(), VBIN_UINT)),
            Value::IInt(_) => Err(FlotonErr::TypeNotAtomic(key.clone(), VBIN_IINT)),
        }
    }

    /// The (new value, previous snapshot) of a `swap`, or `None` when the
    /// target is not atomic.  The previous value comes back under a
    /// non-atomic tag.
    pub open spec fn spec_swap(self, other: Value) -> Option<(Value, Value)> {
        match self {
            Value::ABool(b) => Some((Value::ABool(other.spec_to_bool()), Value::Bool(b))),
            Value::AUInt(n) => Some((Value::AUInt(other.spec_to_uint()), Value::UInt(n))),
            Value::AIInt(n) => Some((Value::AIInt(other.spec_to_iint()), Value::IInt(n))),
            _ => None,
        }
    }

    /// Exchanges the stored scalar for `other` and returns the previous
    /// value as a non-atomic snapshot.
    pub fn swap(&mut self, other: &Value, order: MemOrder, key: &Vec<u8>) -> (r: Result<
        Value,
        FlotonErr,
    >)
        ensures
            match (*old(self)).spec_swap(*other) {
                Some(pair) => *final(self) == pair.0 && r == Ok::<Value, FlotonErr>(pair.1),
                None => *final(self) == *old(self) && (r matches Err(e) && e@
                    == FlotonErrView::TypeNotAtomic(key@, (*old(self)).spec_type_tag())),
            },
    {
        match self {
            Value::ABool(b) => {
                let prev: bool = *b;
                *b = other.to_bool();
                Ok(Value::Bool(prev))
            },
            Value::AUInt(n) => {
                let prev: u64 = *n;
                *n = other.to_uint();
                Ok(Value::UInt(prev))
            },
            Value::AIInt(n) => {
                let prev: i64 = *n;
                *n = other.to_iint();
                Ok(Value::IInt(prev))
            },
            Value::Nothing => Err(FlotonErr::TypeNotAtomic(key.clone(), VBIN_NOTHING)),
            Value::Bool(_) => Err(FlotonErr::TypeNotAtomic(key.clone(), VBIN_BOOL)),
            Value::UInt(_) => Err(FlotonErr::TypeNotAtomic(key.clone(), VBIN_UINT)),
            Value::IInt(_) => Err(FlotonErr::TypeNotAtomic(key.clone(), VBIN_IINT)),
        }
    }

    /// The (new value, success) of a compare-exchange, or `None` when the
    /// target is not atomic.
    pub open spec fn spec_cond_store(self, expected: Value, desired: Value) -> Option<
        (Value, bool),
    > {
        match self {
            Value::ABool(b) => if b == expected.spec_to_bool() {
                Some((Value::ABool(desired.spec_to_bool()), true))
            } else {
                Some((self, false))
            },
            Value::AUInt(n) => if n == expected.spec_to_uint() {
                Some((Value::AUInt(desired.spec_to_uint()), true))
            } else {
                Some((self, false))
            },
            Value::AIInt(n) => if n == expected.spec_to_iint() {
                Some((Value::AIInt(desired.spec_to_iint()), true))
            } else {
                Some((self, false))
            },
            _ => None,
        }
    }

    /// Compare-exchange reporting only success or failure.
    pub fn cond_store(
        &mut self,
        expected: &Value,
        desired: &Value,
        order: MemOrder,
        key: &Vec<u8>,
    ) -> (r: Result<bool, FlotonErr>)
        ensures
            match (*old(self)).spec_cond_store(*expected, *desired) {
                Some(pair) => *final(self) == pair.0 && r == Ok::<bool, FlotonErr>(pair.1),
                None => *final(self) == *old(self) && (r matches Err(e) && e@
                    == FlotonErrView::TypeNotAtomic(key@, (*old(self)).spec_type_tag())),
            },
    {
        match self {
            Value::ABool(b) => {
                if *b == expected.to_bool() {
                    *b = desired.to_bool();
                    Ok(true)
                } else {
                    Ok(false)
                }
            },
            Value::AUInt(n) => {
                if *n == expected.to_uint() {
                    *n = desired.to_uint();
                    Ok(true)
                } else {
                    Ok(false)
                }
            },
            Value::AIInt(n) => {
                if *n == expected.to_iint() {
                    *n = desired.to_iint();
                    Ok(true)
                } else {
                    Ok(false)
                }
            },
            Value::Nothing => Err(FlotonErr::TypeNotAtomic(key.clone(), VBIN_NOTHING)),
            Value::Bool(_) => Err(FlotonErr::TypeNotAtomic(key.clone(), VBIN_BOOL)),
            Value::UInt(_) => Err(FlotonErr::TypeNotAtomic(key.clone(), VBIN_UINT)),
            Value::IInt(_) => Err(FlotonErr::TypeNotAtomic(key.clone(), VBIN_IINT)),
        }
    }

    /// The (new value, success, observed value) of a compare-exchange that
    /// also reports the scalar present at the moment of the exchange.
    pub open spec fn spec_cond_swap(self, expected: Value, desired: Value) -> Option<
        (Value, bool, Value),
    > {
        match self {
            Value::ABool(b) => if b == expected.spec_to_bool() {
                Some((Value::ABool(desired.spec_to_bool()), true, Value::Bool(b)))
            } else {
                Some((self, false, Value::Bool(b)))
            },
            Value::AUInt(n) => if n == expected.spec_to_uint() {
                Some((Value::AUInt(desired.spec_to_uint()), true, Value::UInt(n)))
            } else {
                Some((self, false, Value::UInt(n)))
            },
            Value::AIInt(n) => if n == expected.spec_to_iint() {
                Some((Value::AIInt(desired.spec_to_iint()), true, Value::IInt(n)))
            } else {
                Some((self, false, Value::IInt(n)))
            },
            _ => None,
        }
    }

    /// Compare-exchange returning success together with the value that was
    /// stored when the exchange was attempted.
    pub fn cond_swap(
        &mut self,
        expected: &Value,
        desired: &Value,
        order: MemOrder,
        key: &Vec<u8>,
    ) -> (r: Result<(bool, Value), FlotonErr>)
        ensures
            match (*old(self)).spec_cond_swap(*expected, *desired) {
                Some(t) => *final(self) == t.0 && r == Ok::<(bool, Value), FlotonErr>((t.1, t.2)),
                None => *final(self) == *old(self) && (r matches Err(e) && e@
                    == FlotonErrView::TypeNotAtomic(key@, (*old(self)).spec_type_tag())),
            },
    {
        match self {
            Value::ABool(b) => {
                let prev: bool = *b;
                if prev == expected.to_bool() {
                    *b = desired.to_bool();
                    Ok((true, Value::Bool(prev)))
                } else {
                    Ok((false, Value::Bool(prev)))
                }
            },
            Value::AUInt(n) => {
                let prev: u64 = *n;
                if prev == expected.to_uint() {
                    *n = desired.to_uint();
                    Ok((true, Value::UInt(prev)))
                } else {
                    Ok((false, Value::UInt(prev)))
                }
            },
            Value::AIInt(n) => {
                let prev: i64 = *n;
                if prev == expected.to_iint() {
                    *n = desired.to_iint();
                    Ok((true, Value::IInt(prev)))
                } else {
                    Ok((false, Value::IInt(prev)))
                }
            },
            Value::Nothing => Err(FlotonErr::TypeNotAtomic(key.clone(), VBIN_NOTHING)),
            Value::Bool(_) => Err(FlotonErr::TypeNotAtomic(key.clone(), VBIN_BOOL)),
            Value::UInt(_) => Err(FlotonErr::TypeNotAtomic(key.clone(), VBIN_UINT)),
            Value::IInt(_) => Err(FlotonErr::TypeNotAtomic(key.clone(), VBIN_IINT)),
        }
    }

    /// The (new value, previous snapshot) of a wrapping fetch-add, or
    /// `None` when the target supports no fetch arithmetic.
    pub open spec fn spec_fetch_add(self, other: Value) -> Option<(Value, Value)> {
        match self {
            Value::AUInt(n) => Some(
                (
                    Value::AUInt(vstd::wrapping::u64_specs::wrapping_add(n, other.spec_to_uint())),
                    Value::UInt(n),
                ),
            ),
            Value::AIInt(n) => Some(
                (
                    Value::AIInt(vstd::wrapping::i64_specs::wrapping_add(n, other.spec_to_iint())),
                    Value::IInt(n),
                ),
            ),
            _ => None,
        }
    }

    /// Wrapping fetch-add on the atomic integers; returns the previous
    /// value as a non-atomic snapshot.
    pub fn fetch_add(&mut self, other: &Value, order: MemOrder, key: &Vec<u8>) -> (r: Result<
        Value,
        FlotonErr,
    >)
        ensures
            match (*old(self)).spec_fetch_add(*other) {
                Some(pair) => *final(self) == pair.0 && r == Ok::<Value, FlotonErr>(pair.1),
                None => *final(self) == *old(self) && (r matches Err(e) && e@
                    == FlotonErrView::TypeNotAtomic(key@, (*old(self)).spec_fetch_err_tag())),
            },
    {
        match self {
            Value::AUInt(n) => {
                let prev: u64 = *n;
                *n = prev.wrapping_add(other.to_uint());
                Ok(Value::UInt(prev))
            },
            Value::AIInt(n) => {
                let prev: i64 = *n;
                *n = prev.wrapping_add(other.to_iint());
                Ok(Value::IInt(prev))
            },
            Value::Nothing => Err(FlotonErr::TypeNotAtomic(key.clone(), VBIN_NOTHING)),
            _ => Err(FlotonErr::TypeNotAtomic(key.clone(), VBIN_UINT)),
        }
    }

    /// The (new value, previous snapshot) of a wrapping fetch-sub, or
    /// `None` when the target supports no fetch arithmetic.
    pub open spec fn spec_fetch_sub(self, other: Value) -> Option<(Value, Value)> {
        match self {
            Value::AUInt(n) => Some(
                (
                    Value::AUInt(vstd::wrapping::u64_specs::wrapping_sub(n, other.spec_to_uint())),
                    Value::UInt(n),
                ),
            ),
            Value::AIInt(n) => Some(
                (
                    Value::AIInt(vstd::wrapping::i64_specs::wrapping_sub(n, other.spec_to_iint())),
                    Value::IInt(n),
                ),
            ),
            _ => None,
        }
    }

    /// Wrapping fetch-sub on the atomic integers; returns the previous
    /// value as a non-atomic snapshot.
    pub fn fetch_sub(&mut self, other: &Value, order: MemOrder, key: &Vec<u8>) -> (r: Result<
        Value,
        FlotonErr,
    >)
        ensures
            match (*old(self)).spec_fetch_sub(*other) {
                Some(pair) => *final(self) == pair.0 && r == Ok::<Value, FlotonErr>(pair.1),
                None => *final(self) == *old(self) && (r matches Err(e) && e@
                    == FlotonErrView::TypeNotAtomic(key@, (*old(self)).spec_fetch_err_tag())),
            },
    {
        match self {
            Value::AUInt(n) => {
                let prev: u64 = *n;
                *n = prev.wrapping_sub(other.to_uint());
                Ok(Value::UInt(prev))
            },
            Value::AIInt(n) => {
                let prev: i64 = *n;
                *n = prev.wrapping_sub(other.to_iint());
                Ok(Value::IInt(prev))
            },
            Value::Nothing => Err(FlotonErr::TypeNotAtomic(key.clone(), VBIN_NOTHING)),
            _ => Err(FlotonErr::TypeNotAtomic(key.clone(), VBIN_UINT)),
        }
    }

    /// The wire form of this value: a type tag, then the payload bytes.
    pub open spec fn spec_wire(self) -> Seq<u8> {
        match self {
            Value::Nothing => seq![VBIN_NOTHING],
            Value::Bool(b) => seq![VBIN_BOOL, (if b { 1u8 } else { 0u8 })],
            Value::ABool(b) => seq![VBIN_ABOOL, (if b { 1u8 } else { 0u8 })],
            Value::UInt(n) => seq![VBIN_UINT] + spec_le_bytes_u64(n),
            Value::AUInt(n) => seq![VBIN_AUINT] + spec_le_bytes_u64(n),
            Value::IInt(n) => seq![VBIN_IINT] + spec_le_bytes_u64(n as u64),
            Value::AIInt(n) => seq![VBIN_AIINT] + spec_le_bytes_u64(n as u64),
        }
    }

    /// Appends the wire form of this value to `output`.
    pub fn output_binary(&self, output: &mut Vec<u8>)
        ensures
            final(output)@ == old(output)@ + self.spec_wire(),
    {
        match self {
            Value::Nothing => output.push(VBIN_NOTHING),
            Value::Bool(b) => {
                output.push(VBIN_BOOL);
                if *b {
                    output.push(1);
                } else {
                    output.push(0);
                }
            },
            Value::ABool(b) => {
                output.push(VBIN_ABOOL);
                if *b {
                    output.push(1);
                } else {
                    output.push(0);
                }
            },
            Value::UInt(n) => {
                output.push(VBIN_UINT);
                push_u64_le(output, *n);
            },
            Value::AUInt(n) => {
                output.push(VBIN_AUINT);
                push_u64_le(output, *n);
            },
            Value::IInt(n) => {
                output.push(VBIN_IINT);
                push_u64_le(output, *n as u64);
            },
            Value::AIInt(n) => {
                output.push(VBIN_AIINT);
                push_u64_le(output, *n as u64);
            },
        }
        assert(output@ =~= old(output)@ + self.spec_wire());
    }

    /// What parsing a value at offset `i` of `s` yields: the parse result
    /// and the offset after it.  A read past the end of the buffer yields
    /// an unexpected-byte report of 0; an unknown tag is consumed and
    /// reported.
    pub open spec fn spec_input(s: Seq<u8>, i: int) -> (Result<Value, FlotonErr>, int) {
        if i < 0 || i >= s.len() {
            (Err(FlotonErr::UnexpectedByte(0)), i)
        } else {
            let t = s[i];
            if t == VBIN_NOTHING {
                (Ok(Value::Nothing), i + 1)
            } else if t == VBIN_BOOL {
                if i + 2 <= s.len() {
                    (Ok(Value::Bool(s[i + 1] != 0)), i + 2)
                } else {
                    (Err(FlotonErr::UnexpectedByte(0)), i + 1)
                }
            } else if t == VBIN_ABOOL {
                if i + 2 <= s.len() {
                    (Ok(Value::ABool(s[i + 1] != 0)), i + 2)
                } else {
                    (Err(FlotonErr::UnexpectedByte(0)), i + 1)
                }
            } else if t == VBIN_UINT {
                if i + 9 <= s.len() {
                    (Ok(Value::UInt(spec_le_u64_at(s, i + 1))), i + 9)
                } else {
                    (Err(FlotonErr::UnexpectedByte(0)), i + 1)
                }
            } else if t == VBIN_AUINT {
                if i + 9 <= s.len() {
                    (Ok(Value::AUInt(spec_le_u64_at(s, i + 1))), i + 9)
                } else {
                    (Err(FlotonErr::UnexpectedByte(0)), i + 1)
                }
            } else if t == VBIN_IINT {
                if i + 9 <= s.len() {
                    (Ok(Value::IInt(spec_le_u64_at(s, i + 1) as i64)), i + 9)
                } else {
                    (Err(FlotonErr::UnexpectedByte(0)), i + 1)
                }
            } else if t == VBIN_AIINT {
                if i + 9 <= s.len() {
                    (Ok(Value::AIInt(spec_le_u64_at(s, i + 1) as i64)), i + 9)
                } else {
                    (Err(FlotonErr::UnexpectedByte(0)), i + 1)
                }
            } else {
                (Err(FlotonErr::UnexpectedByte(t)), i + 1)
            }
        }
    }

    /// Parses one value from `input` at cursor `place`, advancing the
    /// cursor past what was consumed.
    pub fn input_binary(input: &Vec<u8>, place: &mut usize) -> (r: Result<Value, FlotonErr>)
        ensures
            (r, *final(place) as int) == Value::spec_input(input@, *old(place) as int),
            r is Ok ==> *old(place) < *final(place) <= input@.len(),
    {
        proof {
            vstd::std_specs::vec::axiom_spec_len(input);
        }
        if *place >= input.len() {
            return Err(FlotonErr::UnexpectedByte(0));
        }
        let in_type = input[*place];
        *place += 1;
        if in_type == VBIN_NOTHING {
            Ok(Value::Nothing)
        } else if in_type == VBIN_BOOL {
            if *place < input.len() {
                let b = input[*place];
                *place += 1;
                Ok(Value::Bool(b != 0))
            } else {
                Err(FlotonErr::UnexpectedByte(0))
            }
        } else if in_type == VBIN_ABOOL {
            if *place < input.len() {
                let b = input[*place];
                *place += 1;
                Ok(Value::ABool(b != 0))
            } else {
                Err(FlotonErr::UnexpectedByte(0))
            }
        } else if in_type == VBIN_UINT {
            if input.len() - *place >= 8 {
                let n = read_u64_le(input, *place);
                *place += 8;
                Ok(Value::UInt(n))
            } else {
                Err(FlotonErr::UnexpectedByte(0))
            }
        } else if in_type == VBIN_AUINT {
            if input.len() - *place >= 8 {
                let n = read_u64_le(input, *place);
                *place += 8;
                Ok(Value::AUInt(n))
            } else {
                Err(FlotonErr::UnexpectedByte(0))
            }
        } else if in_type == VBIN_IINT {
            if input.len() - *place >= 8 {
                let n = read_u64_le(input, *place);
                *place += 8;
                Ok(Value::IInt(n as i64))
            } else {
                Err(FlotonErr::UnexpectedByte(0))
            }
        } else if in_type == VBIN_AIINT {
            if input.len() - *place >= 8 {
                let n = read_u64_le(input, *place);
                *place += 8;
                Ok(Value::AIInt(n as i64))
            } else {
                Err(FlotonErr::UnexpectedByte(0))
            }
        } else {
            Err(FlotonErr::UnexpectedByte(in_type))
        }
    }
}

/// The value after `t` fetch-adds of `arg` applied to `v`, each taking
/// the leaf the previous one left.
pub open spec fn spec_fetch_add_iter(v: Value, arg: Value, t: nat) -> Value
    decreases t,
{
    if t == 0 {
        v
    } else {
        let prev = spec_fetch_add_iter(v, arg, (t - 1) as nat);
        match prev.spec_fetch_add(arg) {
            Some(p) => p.0,
            None => prev,
        }
    }
}

/// Counter accumulation: `t` fetch-adds of `n`, applied one after the
/// other to an atomic unsigned counter starting at `v0`, leave the
/// counter at exactly `v0 + n * t` (when that total fits the word).
pub proof fn lemma_fetch_add_accumulates(v0: u64, n: u64, t: nat)
    requires
        v0 + n * t <= u64::MAX,
    ensures
        spec_fetch_add_iter(Value::AUInt(v0), Value::UInt(n), t) == Value::AUInt(
            (v0 + n * t) as u64,
        ),
    decreases t,
{
    if t > 0 {
        assert(n * t == n * (t - 1) + n && n * (t - 1) >= 0) by (nonlinear_arith)
            requires
                t >= 1,
                n >= 0,
        ;
        lemma_fetch_add_accumulates(v0, n, (t - 1) as nat);
        let prev = spec_fetch_add_iter(Value::AUInt(v0), Value::UInt(n), (t - 1) as nat);
        assert(prev == Value::AUInt((v0 + n * (t - 1)) as u64));
        let cur = spec_fetch_add_iter(Value::AUInt(v0), Value::UInt(n), t);
        assert(prev.spec_fetch_add(Value::UInt(n)) is Some);
        assert(cur == prev.spec_fetch_add(Value::UInt(n))->Some_0.0);
        assert(vstd::wrapping::u64_specs::wrapping_add((v0 + n * (t - 1)) as u64, n) == (v0 + n
            * t) as u64);
    } else {
        assert(n * t == 0) by (nonlinear_arith)
            requires
                t == 0,
        ;
    }
}

/// Observation exactness: a compare-exchange on an atomic leaf reports
/// back, as its observed value, exactly the scalar the leaf held at the
/// moment of the exchange, whether the exchange succeeded or failed; and
/// it succeeds exactly when that scalar equals the coerced expectation.
pub proof fn lemma_cond_swap_observes(v: Value, expected: Value, desired: Value)
    requires
        v is ABool || v is AUInt || v is AIInt,
    ensures
        v.spec_cond_swap(expected, desired) is Some,
        ({
            let t = v.spec_cond_swap(expected, desired)->Some_0;
            &&& (v is ABool ==> t.2 == Value::Bool(v->ABool_0) && t.1 == (v->ABool_0
                == expected.spec_to_bool()))
            &&& (v is AUInt ==> t.2 == Value::UInt(v->AUInt_0) && t.1 == (v->AUInt_0
                == expected.spec_to_uint()))
            &&& (v is AIInt ==> t.2 == Value::IInt(v->AIInt_0) && t.1 == (v->AIInt_0
                == expected.spec_to_iint()))
        }),
{
}

impl InPutOutPut for Value {
    fn output_binary(&self, output: &mut Vec<u8>) {
        Value::output_binary(self, output)
    }

    fn input_binary(input: &Vec<u8>, place: &mut usize) -> Result<Self, FlotonErr> {
        Value::input_binary(input, place)
    }
}

/// Wire round trip for leaf values: parsing the wire form of any value
/// yields the value back and consumes exactly its bytes.
pub proof fn lemma_value_wire_roundtrip(v: Value)
    ensures
        Value::spec_input(v.spec_wire(), 0) == (Ok::<Value, FlotonErr>(v), v.spec_wire().len() as int),
{
    let s = v.spec_wire();
    match v {
        Value::Nothing => {},
        Value::Bool(b) => {
            assert(s[1] == (if b { 1u8 } else { 0u8 }));
        },
        Value::ABool(b) => {
            assert(s[1] == (if b { 1u8 } else { 0u8 }));
        },
        Value::UInt(n) => {
            lemma_wire_u64_payload(s, n);
        },
        Value::AUInt(n) => {
            lemma_wire_u64_payload(s, n);
        },
        Value::IInt(n) => {
            lemma_wire_u64_payload(s, n as u64);
            let m = n as u64;
            assert((n as u64) as i64 == n) by (bit_vector);
            assert(m as i64 == n);
        },
        Value::AIInt(n) => {
            lemma_wire_u64_payload(s, n as u64);
            let m = n as u64;
            assert((n as u64) as i64 == n) by (bit_vector);
            assert(m as i64 == n);
        },
    }
}

/// The eight bytes after a tag read back as the stamped word.
proof fn lemma_wire_u64_payload(s: Seq<u8>, n: u64)
    requires
        s.len() == 9,
        forall|i: int| 0 <= i < 8 ==> s[i + 1] == spec_le_bytes_u64(n)[i],
    ensures
        spec_le_u64_at(s, 1) == n,
{
    crate::fast_output::lemma_le_u64_roundtrip(n);
    let b = spec_le_bytes_u64(n);
    assert(spec_le_u64_at(s, 1) == spec_le_u64_at(b, 0)) by {
        assert(s[1] == b[0] && s[2] == b[1] && s[3] == b[2] && s[4] == b[3] && s[5] == b[4] && s[6]
            == b[5] && s[7] == b[6] && s[8] == b[7]);
    }
}

/// Wire round trip for leaf values embedded in a larger buffer: parsing
/// at the offset where a value's wire form sits yields the value back and
/// stops right after it.
pub proof fn lemma_value_wire_embed(v: Value, s: Seq<u8>, i: int)
    requires
        0 <= i,
        i + v.spec_wire().len() <= s.len(),
        s.subrange(i, i + v.spec_wire().len() as int) == v.spec_wire(),
    ensures
        Value::spec_input(s, i) == (Ok::<Value, FlotonErr>(v), i + v.spec_wire().len()),
{
    let w = v.spec_wire();
    assert forall|j: int| 0 <= j < w.len() implies s[i + j] == w[j] by {
        assert(s.subrange(i, i + w.len() as int)[j] == s[i + j]);
    }
    assert(s[i] == w[0]);
    match v {
        Value::Nothing => {},
        Value::Bool(b) => {
            assert(s[i + 1] == (if b { 1u8 } else { 0u8 }));
        },
        Value::ABool(b) => {
            assert(s[i + 1] == (if b { 1u8 } else { 0u8 }));
        },
        Value::UInt(n) => {
            assert forall|j: int| 0 <= j < 8 implies s[i + 1 + j] == #[trigger] (spec_le_bytes_u64(
                n,
            )[j]) by {
                assert(s[i + (1 + j)] == w[1 + j]);
            }
            crate::fast_output::lemma_le_u64_embed(s, i + 1, n);
        },
        Value::AUInt(n) => {
            assert forall|j: int| 0 <= j < 8 implies s[i + 1 + j] == #[trigger] (spec_le_bytes_u64(
                n,
            )[j]) by {
                assert(s[i + (1 + j)] == w[1 + j]);
            }
            crate::fast_output::lemma_le_u64_embed(s, i + 1, n);
        },
        Value::IInt(n) => {
            assert forall|j: int| 0 <= j < 8 implies s[i + 1 + j] == #[trigger] (spec_le_bytes_u64(
                n as u64,
            )[j]) by {
                assert(s[i + (1 + j)] == w[1 + j]);
            }
            crate::fast_output::lemma_le_u64_embed(s, i + 1, n as u64);
            assert((n as u64) as i64 == n) by (bit_vector);
        },
        Value::AIInt(n) => {
            assert forall|j: int| 0 <= j < 8 implies s[i + 1 + j] == #[trigger] (spec_le_bytes_u64(
                n as u64,
            )[j]) by {
                assert(s[i + (1 + j)] == w[1 + j]);
            }
            crate::fast_output::lemma_le_u64_embed(s, i + 1, n as u64);
            assert((n as u64) as i64 == n) by (bit_vector);
        },
    }
}

} // verus!