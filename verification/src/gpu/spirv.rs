//! Compiled shader modules as words, and the capabilities that they declare. A module may only ask
//! for what device creation enables.
use crate::gpu::bytes::{law_le32_round_trips, le32, of_le32, u32_at};
use vstd::prelude::*;

verus! {

pub const MAGIC: u32 = 0x0723_0203;

/// Words of a module's header.
pub const HEADER_WORDS: usize = 5;

/// The instruction that declares a capability.
pub const OP_CAPABILITY: u32 = 17;

/// The words of a module's bytes; a rest of fewer than four bytes is left out.
pub open spec fn words_of(bytes: Seq<u8>) -> Seq<u32> {
    Seq::new(bytes.len() / 4, |i: int| of_le32(bytes.subrange(4 * i, 4 * i + 4)) as u32)
}

fn read_words(bytes: &[u8]) -> (r: Vec<u32>)
    ensures
        r@ == words_of(bytes@),
{
    let n: usize = bytes.len() / 4;
    let mut out: Vec<u32> = Vec::new();
    let mut i: usize = 0;
    while i < n
        invariant
            n == bytes@.len() / 4,
            bytes@.len() <= usize::MAX,
            i <= n,
            out@ == words_of(bytes@).take(i as int),
        decreases n - i,
    {
        out.push(u32_at(bytes, 4 * i));
        i += 1;
        assert(out@ =~= words_of(bytes@).take(i as int));
    }
    assert(out@ =~= words_of(bytes@));
    out
}

/// The words of a module, or `None` when its bytes are not whole words.
pub fn module_words(bytes: &[u8]) -> (r: Option<Vec<u32>>)
    ensures
        match r {
            Some(w) => bytes@.len() % 4 == 0 && w@ == words_of(bytes@),
            None => bytes@.len() % 4 != 0,
        },
{
    if bytes.len() % 4 != 0 {
        return None;
    }
    Some(read_words(bytes))
}

/// Why a module's capabilities cannot be told.
#[derive(Clone, Copy, Debug, PartialEq, Eq, Structural)]
pub enum SpirvError {
    /// It does not begin with the magic word.
    Magic,
    /// The instruction at this word has no length.
    Malformed(usize),
    /// The capability instruction at this word has no operand.
    Truncated(usize),
}

/// The operands of every capability instruction from word `i` on.
pub open spec fn scan(words: Seq<u32>, i: int) -> Result<Seq<u32>, SpirvError>
    decreases vstd::math::max(words.len() - i, 0),
{
    if i >= words.len() {
        Ok(Seq::empty())
    } else {
        let count = words[i] / 65536;
        let capability = words[i] % 65536 == OP_CAPABILITY;
        if count == 0 {
            Err(SpirvError::Malformed(i as usize))
        } else if capability && i + 1 >= words.len() {
            Err(SpirvError::Truncated(i as usize))
        } else {
            match scan(words, i + count) {
                Ok(rest) => Ok(
                    if capability {
                        seq![words[i + 1]] + rest
                    } else {
                        rest
                    },
                ),
                Err(e) => Err(e),
            }
        }
    }
}

/// What a module declares.
pub open spec fn declared(words: Seq<u32>) -> Result<Seq<u32>, SpirvError> {
    if words.len() == 0 || words[0] != MAGIC {
        Err(SpirvError::Magic)
    } else {
        scan(words, HEADER_WORDS as int)
    }
}

/// `out` in front of what is still to come.
pub open spec fn joined(out: Seq<u32>, rest: Result<Seq<u32>, SpirvError>) -> Result<Seq<u32>, SpirvError> {
    match rest {
        Ok(s) => Ok(out + s),
        Err(e) => Err(e),
    }
}

/// The operands of every capability instruction in a module.
pub fn capabilities(spv: &[u8]) -> (r: Result<Vec<u32>, SpirvError>)
    ensures
        match r {
            Ok(v) => declared(words_of(spv@)) == Ok::<Seq<u32>, SpirvError>(v@),
            Err(e) => declared(words_of(spv@)) == Err::<Seq<u32>, SpirvError>(e),
        },
{
    let words = read_words(spv);
    if words.len() == 0 || words[0] != MAGIC {
        return Err(SpirvError::Magic);
    }
    let ghost all = scan(words@, 5);
    let mut out: Vec<u32> = Vec::new();
    let mut i: usize = HEADER_WORDS;
    proof {
        if all is Ok {
            assert(Seq::<u32>::empty() + all->Ok_0 =~= all->Ok_0);
        }
    }
    while i < words.len()
        invariant
            words@ == words_of(spv@),
            words@.len() > 0 && words@[0] == MAGIC,
            all == scan(words@, 5),
            joined(out@, scan(words@, i as int)) == all,
        decreases words@.len() - i,
    {
        let w: u32 = words[i];
        let count: usize = (w / 65536) as usize;
        if count == 0 {
            return Err(SpirvError::Malformed(i));
        }
        let ghost before = out@;
        let ghost rest = scan(words@, i + count);
        if w % 65536 == OP_CAPABILITY {
            if i + 1 >= words.len() {
                return Err(SpirvError::Truncated(i));
            }
            out.push(words[i + 1]);
            proof {
                if rest is Ok {
                    assert(before + (seq![words@[i + 1]] + rest->Ok_0) =~= out@ + rest->Ok_0);
                }
            }
        }
        assert(joined(out@, rest) == all);
        if count >= words.len() - i {
            assert(rest == Ok::<Seq<u32>, SpirvError>(Seq::empty()));
            assert(out@ + Seq::<u32>::empty() =~= out@);
            return Ok(out);
        }
        i += count;
    }
    assert(out@ + Seq::<u32>::empty() =~= out@);
    Ok(out)
}

/// What device creation enables: shaders, geometry, ray queries, and buffer addresses.
pub open spec fn allowed(c: u32) -> bool {
    c == 1 || c == 2 || c == 4472 || c == 5347
}

/// The capabilities beyond those that device creation enables.
pub fn extra(caps: &[u32]) -> (r: Vec<u32>)
    ensures
        r@ == caps@.filter(|c: u32| !allowed(c)),
{
    let mut out: Vec<u32> = Vec::new();
    let mut i: usize = 0;
    assert(caps@.take(0).filter(|c: u32| !allowed(c)) =~= Seq::empty());
    while i < caps.len()
        invariant
            i <= caps@.len(),
            out@ == caps@.take(i as int).filter(|c: u32| !allowed(c)),
        decreases caps@.len() - i,
    {
        let c: u32 = caps[i];
        proof {
            let t = caps@.take(i + 1);
            assert(t.drop_last() =~= caps@.take(i as int));
            assert(t.last() == c);
            reveal(Seq::filter);
        }
        if !(c == 1 || c == 2 || c == 4472 || c == 5347) {
            out.push(c);
        }
        i += 1;
    }
    assert(caps@.take(i as int) =~= caps@);
    out
}

/// The words of a list of instructions, each an opcode below its length in words, and its operands.
pub open spec fn assembled(code: Seq<(u32, Seq<u32>)>) -> Seq<u32>
    decreases code.len(),
{
    if code.len() == 0 {
        Seq::empty()
    } else {
        seq![(65536 * (1 + code[0].1.len()) + code[0].0) as u32] + code[0].1 + assembled(code.skip(1))
    }
}

/// Every instruction fits its first word, and every capability instruction has an operand.
pub open spec fn sound(code: Seq<(u32, Seq<u32>)>) -> bool {
    forall|k: int|
        0 <= k < code.len() ==> (#[trigger] code[k]).0 < 65536 && code[k].1.len() < 65535 && (code[k].0 == 17 ==> code[k].1.len() > 0)
}

/// The operands of the capability instructions of a list.
pub open spec fn asked(code: Seq<(u32, Seq<u32>)>) -> Seq<u32>
    decreases code.len(),
{
    if code.len() == 0 {
        Seq::empty()
    } else if code[0].0 == 17 {
        seq![code[0].1[0]] + asked(code.skip(1))
    } else {
        asked(code.skip(1))
    }
}

proof fn lemma_scan_assembled(head: Seq<u32>, code: Seq<(u32, Seq<u32>)>)
    requires
        sound(code),
    ensures
        scan(head + assembled(code), head.len() as int) == Ok::<Seq<u32>, SpirvError>(asked(code)),
    decreases code.len(),
{
    let words = head + assembled(code);
    let i = head.len() as int;
    if code.len() > 0 {
        let (op, args) = code[0];
        let tail = code.skip(1);
        let first = (65536 * (1 + args.len()) + op) as u32;
        assert(code[0].0 < 65536);
        assert forall|k: int| 0 <= k < tail.len() implies (#[trigger] tail[k]).0 < 65536 && tail[k].1.len() < 65535 && (tail[k].0 == 17
            ==> tail[k].1.len() > 0) by {
            assert(tail[k] == code[k + 1]);
        }
        let next = head + (seq![first] + args);
        lemma_scan_assembled(next, tail);
        assert(words =~= next + assembled(tail));
        assert(words[i] == first);
        assert(first / 65536 == 1 + args.len() && first % 65536 == op);
        assert(next.len() == i + first / 65536);
        if op == 17 {
            assert(words[i + 1] == args[0]);
        }
    }
}

/// A module of a header and sound instructions declares the operands of its capability instructions, in order.
pub proof fn law_modules_declare_what_they_ask_for(head: Seq<u32>, code: Seq<(u32, Seq<u32>)>)
    requires
        head.len() == 5,
        head[0] == 0x0723_0203,
        sound(code),
    ensures
        declared(head + assembled(code)) == Ok::<Seq<u32>, SpirvError>(asked(code)),
{
    lemma_scan_assembled(head, code);
    assert((head + assembled(code))[0] == head[0]);
}

/// Words written low byte first are read back, with or without up to three bytes behind them.
pub proof fn law_words_read_back(words: Seq<u32>, bytes: Seq<u8>, i: int)
    requires
        bytes.len() / 4 == words.len(),
        0 <= i < words.len(),
        bytes.subrange(4 * i, 4 * i + 4) == le32(words[i]),
    ensures
        words_of(bytes).len() == words.len(),
        words_of(bytes)[i] == words[i],
{
    law_le32_round_trips(words[i]);
}

/// A capability is beyond what the device enables unless it is one of shaders, geometry, ray queries and buffer
/// addresses.
pub proof fn law_extra_capabilities_are_all_others(caps: Seq<u32>, c: u32)
    ensures
        caps.filter(|c: u32| !allowed(c)).contains(c) <==> caps.contains(c) && c != 1 && c != 2 && c != 4472 && c != 5347,
{
    caps.filter_lemma(|c: u32| !allowed(c));
    let kept = caps.filter(|c: u32| !allowed(c));
    if caps.contains(c) && !allowed(c) {
        let k = choose|k: int| 0 <= k < caps.len() && caps[k] == c;
        assert(kept.contains(caps[k]));
    }
    if kept.contains(c) {
        caps.lemma_filter_contains_rev(|c: u32| !allowed(c), c);
    }
}

} // verus!
