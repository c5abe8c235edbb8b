//! The kernel log: a ring buffer of the most recent characters logged, kept
//! until the serial and framebuffer sinks can take them.
use vstd::prelude::*;
use vstd::string::StrSliceExecFns;
use ringbuffer::{AllocRingBuffer, RingBuffer};

verus! {

/// Characters the log keeps (16 KiB).
pub const BUF_SIZE: usize = 16 * 1024;

#[verifier::external_type_specification]
#[verifier::external_body]
#[verifier::reject_recursive_types(T)]
pub struct ExAllocRingBuffer<T>(AllocRingBuffer<T>);

/// The characters a ring buffer holds, oldest first.
pub uninterp spec fn ring_contents(b: AllocRingBuffer<char>) -> Seq<char>;

/// The number of characters a ring buffer keeps.
pub uninterp spec fn ring_capacity(b: AllocRingBuffer<char>) -> nat;

/// Relies on AllocRingBuffer::new: an empty buffer that keeps `capacity`
/// items (it panics on zero).
#[verifier::external_body]
fn ring_new(capacity: usize) -> (r: AllocRingBuffer<char>)
    requires
        capacity > 0,
    ensures
        ring_contents(r) == Seq::<char>::empty(),
        ring_capacity(r) == capacity,
{
    AllocRingBuffer::new(capacity)
}

/// Relies on RingBuffer::push of AllocRingBuffer: when the buffer is full the
/// oldest item is dropped, then the new one is appended.
#[verifier::external_body]
fn ring_push(b: &mut AllocRingBuffer<char>, c: char)
    ensures
        ring_capacity(*final(b)) == ring_capacity(*old(b)),
        ring_contents(*final(b)) == if ring_contents(*old(b)).len() == ring_capacity(*old(b)) {
            ring_contents(*old(b)).drop_first().push(c)
        } else {
            ring_contents(*old(b)).push(c)
        },
{
    b.push(c)
}

/// Relies on RingBuffer::to_vec: the items, oldest first.
#[verifier::external_body]
fn ring_to_vec(b: &AllocRingBuffer<char>) -> (r: Vec<char>)
    ensures
        r@ == ring_contents(*b),
{
    b.to_vec()
}

/// Relies on RingBuffer::clear: the buffer is left empty with its capacity.
#[verifier::external_body]
fn ring_clear(b: &mut AllocRingBuffer<char>)
    ensures
        ring_contents(*final(b)) == Seq::<char>::empty(),
        ring_capacity(*final(b)) == ring_capacity(*old(b)),
{
    b.clear()
}

/// The last `cap` characters of `s` (all of them when there are fewer).
pub open spec fn keep_last(s: Seq<char>, cap: nat) -> Seq<char> {
    if s.len() <= cap {
        s
    } else {
        s.subrange(s.len() - cap, s.len() as int)
    }
}

/// Whatever the log held, once `text` is logged the log ends with `text`
/// when `text` fits in it.
pub proof fn lemma_log_tail(old_contents: Seq<char>, text: Seq<char>, cap: nat)
    requires
        text.len() <= cap,
    ensures
        ({
            let k = keep_last(old_contents + text, cap);
            k.subrange(k.len() - text.len(), k.len() as int) == text
        }),
{
    let all = old_contents + text;
    let k = keep_last(all, cap);
    assert(k.subrange(k.len() - text.len(), k.len() as int) =~= text);
}

/// Keeping the last `cap` characters and then appending `t` and keeping the
/// last `cap` again is keeping the last `cap` of the whole.
pub proof fn lemma_keep_last_concat(s: Seq<char>, t: Seq<char>, cap: nat)
    ensures
        keep_last(keep_last(s, cap) + t, cap) == keep_last(s + t, cap),
{
    if s.len() > cap {
        let k = keep_last(s, cap);
        assert(keep_last(k + t, cap) =~= keep_last(s + t, cap));
    }
}

pub struct SnLogBuffer {
    buf: AllocRingBuffer<char>,
}

impl SnLogBuffer {
    /// The characters the log holds, oldest first.
    pub closed spec fn contents(self) -> Seq<char> {
        ring_contents(self.buf)
    }

    pub closed spec fn wf(self) -> bool {
        &&& ring_capacity(self.buf) == BUF_SIZE
        &&& ring_contents(self.buf).len() <= BUF_SIZE
    }

    pub fn new() -> (r: SnLogBuffer)
        ensures
            r.wf(),
            r.contents() == Seq::<char>::empty(),
    {
        SnLogBuffer { buf: ring_new(BUF_SIZE) }
    }

    /// Appends `c`, dropping the oldest character when the log is full.
    pub fn write_char(&mut self, c: char)
        requires
            old(self).wf(),
        ensures
            final(self).wf(),
            final(self).contents() == keep_last(old(self).contents().push(c), BUF_SIZE as nat),
    {
        let ghost old_c = self.contents();
        ring_push(&mut self.buf, c);
        proof {
            if old_c.len() == BUF_SIZE {
                assert(old_c.drop_first().push(c) =~= old_c.push(c).subrange(
                    old_c.push(c).len() - BUF_SIZE,
                    old_c.push(c).len() as int,
                ));
            }
        }
    }

    /// Appends the characters of `s`, keeping the last 16 KiB.
    pub fn write_str(&mut self, s: &str)
        requires
            old(self).wf(),
        ensures
            final(self).wf(),
            final(self).contents() == keep_last(old(self).contents() + s@, BUF_SIZE as nat),
    {
        let ghost old_c = self.contents();
        let n = s.unicode_len();
        let mut i: usize = 0;
        while i < n
            invariant
                self.wf(),
                n == s@.len(),
                i <= n,
                self.contents() == keep_last(old_c + s@.subrange(0, i as int), BUF_SIZE as nat),
            decreases n - i,
        {
            let c = s.get_char(i);
            self.write_char(c);
            proof {
                let all = old_c + s@.subrange(0, i as int);
                assert(old_c + s@.subrange(0, i + 1) =~= all.push(c));
                lemma_keep_last_push(all, c, BUF_SIZE as nat);
            }
            i = i + 1;
        }
        assert(s@.subrange(0, n as int) =~= s@);
    }

    /// Takes every character out of the log, oldest first.
    pub fn drain(&mut self) -> (r: Vec<char>)
        requires
            old(self).wf(),
        ensures
            final(self).wf(),
            r@ == old(self).contents(),
            final(self).contents() == Seq::<char>::empty(),
    {
        let r = ring_to_vec(&self.buf);
        ring_clear(&mut self.buf);
        r
    }
}

/// Keeping the last `cap` characters, then appending, then keeping the last
/// `cap` again is keeping the last `cap` of the whole.
proof fn lemma_keep_last_push(s: Seq<char>, c: char, cap: nat)
    requires
        cap > 0,
    ensures
        keep_last(keep_last(s, cap).push(c), cap) == keep_last(s.push(c), cap),
{
    let k = keep_last(s, cap);
    if s.len() < cap {
        assert(k.push(c) =~= s.push(c));
    } else {
        assert(keep_last(k.push(c), cap) =~= keep_last(s.push(c), cap));
    }
}

/// What the log holds, to be written out to the sinks once they exist; the log keeps it.
pub fn clean_buffer(buffer: &SnLogBuffer) -> (r: Vec<char>)
    ensures
        r@ == buffer.contents(),
{
    ring_to_vec(&buffer.buf)
}

} // verus!
