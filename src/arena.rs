//! An append-only arena of byte chunks. A chunk is created with a fixed
//! capacity and never grows past it, so the bytes it holds never move while
//! it lives; more room comes from a new chunk at the end of the chain.
use vstd::prelude::*;
use crate::utf8::{
    high_count, lemma_ucs1_len, all_scalars, encode_ucs1, encode_ucs2, encode_ucs4, first_invalid, lemma_utf8_len_bound,
    max_utf8_len, utf8_of_units, widen1, widen2,
};

verus! {

/// The least capacity of a new chunk.
pub const MIN_BUF_LEN: usize = 1024;

/// What a chunk holds, and the room it was made with.
pub struct ChunkView {
    pub bytes: Seq<u8>,
    pub capacity: nat,
}

/// One buffer of the chain. Its bytes never pass `cap`, the capacity it was
/// allocated with, so the buffer is never reallocated.
pub struct Chunk {
    data: Vec<u8>,
    cap: usize,
}

impl View for Chunk {
    type V = ChunkView;

    closed spec fn view(&self) -> ChunkView {
        ChunkView { bytes: self.data@, capacity: self.cap as nat }
    }
}

/// What each chunk of a chain holds.
pub open spec fn chain_view(chain: Seq<Chunk>) -> Seq<ChunkView> {
    chain.map_values(|c: Chunk| c@)
}

/// Every chunk holds no more than its capacity.
pub open spec fn chain_wf(m: Seq<ChunkView>) -> bool {
    forall|i: int| 0 <= i < m.len() ==> (#[trigger] m[i]).bytes.len() <= m[i].capacity
}

/// The arena: an ordered chain of chunks, of which only the last is written.
#[allow(non_camel_case_types)]
pub struct qdb_pystr_buf {
    chain: Vec<Chunk>,
}

impl View for qdb_pystr_buf {
    type V = Seq<ChunkView>;

    closed spec fn view(&self) -> Seq<ChunkView> {
        chain_view(self.chain@)
    }
}

impl qdb_pystr_buf {
    /// Every chunk is within its capacity.
    pub open spec fn wf(&self) -> bool {
        chain_wf(self@)
    }
}

/// A checkpoint: the number of chunks, and the length of the last one.
#[allow(non_camel_case_types)]
#[derive(Debug, Clone, Copy, PartialEq, Eq, Structural)]
pub struct qdb_pystr_pos {
    pub chain: usize,
    pub string: usize,
}

/// Where the bytes of one encoding stand: in chunk `chunk`, from `start`,
/// `len` bytes.
#[derive(Debug, Clone, Copy, PartialEq, Eq, Structural)]
pub struct Utf8View {
    pub chunk: usize,
    pub start: usize,
    pub len: usize,
}

/// The position at the end of the committed data.
pub open spec fn tell_of(m: Seq<ChunkView>) -> (int, int) {
    if m.len() == 0 {
        (0, 0)
    } else {
        (m.len() as int, m.last().bytes.len() as int)
    }
}

/// `p` is the position `t`.
pub open spec fn pos_is(p: qdb_pystr_pos, t: (int, int)) -> bool {
    p.chain as int == t.0 && p.string as int == t.1
}

/// Drops the chunks from index `chain` on, then cuts the last one kept to
/// `string` bytes (a longer `string` leaves it whole).
pub open spec fn truncate_of(m: Seq<ChunkView>, chain: int, string: int) -> Seq<ChunkView> {
    let kept = m.take(chain);
    if kept.len() == 0 {
        kept
    } else {
        let last = kept.last();
        let n = if string < last.bytes.len() {
            string
        } else {
            last.bytes.len() as int
        };
        kept.update(
            kept.len() - 1,
            ChunkView { bytes: last.bytes.take(n), capacity: last.capacity },
        )
    }
}

/// The arena back to one empty chunk, keeping that chunk's allocation; an
/// arena with no chunk stays as it is.
pub open spec fn clear_of(m: Seq<ChunkView>) -> Seq<ChunkView> {
    if m.len() == 0 {
        m
    } else {
        truncate_of(m, 1, 0)
    }
}

/// The last chunk has room for `n` more bytes.
pub open spec fn tail_fits(m: Seq<ChunkView>, n: nat) -> bool {
    m.len() > 0 && m.last().bytes.len() + n <= m.last().capacity
}

/// The larger of two numbers.
pub open spec fn max_nat(a: nat, b: nat) -> nat {
    if a >= b {
        a
    } else {
        b
    }
}

/// The chain once room for `n` more bytes is made at its end: unchanged if
/// the last chunk has it, else with a new empty chunk of capacity
/// `max(n, MIN_BUF_LEN)`.
pub open spec fn reserve_of(m: Seq<ChunkView>, n: nat) -> Seq<ChunkView> {
    if tail_fits(m, n) {
        m
    } else {
        m.push(ChunkView { bytes: Seq::empty(), capacity: max_nat(n, MIN_BUF_LEN as nat) })
    }
}

/// The chain after `out` is written at the end of a tail with room for
/// `n` bytes.
pub open spec fn append_of(m: Seq<ChunkView>, n: nat, out: Seq<u8>) -> Seq<ChunkView> {
    let r = reserve_of(m, n);
    r.update(r.len() - 1, ChunkView { bytes: r.last().bytes + out, capacity: r.last().capacity })
}

/// The view of the bytes that the last encoding into `m` wrote, `out`.
pub open spec fn appended_view(m: Seq<ChunkView>, n: nat, out: Seq<u8>, v: Utf8View) -> bool {
    let r = reserve_of(m, n);
    &&& v.chunk == r.len() - 1
    &&& v.start == r.last().bytes.len()
    &&& v.len == out.len()
}

/// `v` names bytes that `m` holds.
pub open spec fn view_in(m: Seq<ChunkView>, v: Utf8View) -> bool {
    v.chunk < m.len() && v.start + v.len <= m[v.chunk as int].bytes.len()
}

/// The bytes that `v` names in `m`.
pub open spec fn bytes_at(m: Seq<ChunkView>, v: Utf8View) -> Seq<u8> {
    m[v.chunk as int].bytes.subrange(v.start as int, v.start + v.len)
}

/// `b` grew from `a` only by appending: no chunk was dropped or
/// reallocated, and every byte of `a` is still in place.
pub open spec fn extends(a: Seq<ChunkView>, b: Seq<ChunkView>) -> bool {
    &&& a.len() <= b.len()
    &&& forall|i: int|
        0 <= i < a.len() ==> {
            &&& (#[trigger] b[i]).capacity == a[i].capacity
            &&& a[i].bytes.len() <= b[i].bytes.len()
            &&& b[i].bytes.take(a[i].bytes.len() as int) == a[i].bytes
        }
}

/// Makes sure the last chunk of `chain` has room for `len` more bytes:
/// keeps the chain if it has, else appends a new chunk of capacity
/// `max(len, MIN_BUF_LEN)`. No existing chunk is ever resized. Returns
/// whether a chunk was added.
pub fn get_dest(chain: &mut Vec<Chunk>, len: usize) -> (grew: bool)
    requires
        chain_wf(chain_view(old(chain)@)),
    ensures
        chain_view(final(chain)@) == reserve_of(chain_view(old(chain)@), len as nat),
        grew == !tail_fits(chain_view(old(chain)@), len as nat),
        chain_wf(chain_view(final(chain)@)),
{
    let ghost m = chain_view(chain@);
    let n = chain.len();
    if n > 0 {
        let last = &chain[n - 1];
        assert(m.last() == last@);
        if last.cap - last.data.len() >= len {
            return false;
        }
    }
    let cap = if len > MIN_BUF_LEN {
        len
    } else {
        MIN_BUF_LEN
    };
    chain.push(Chunk { data: Vec::with_capacity(cap), cap });
    assert(chain_view(chain@) =~= reserve_of(m, len as nat));
    true
}

/// Creates an arena with no chunk.
pub fn qdb_pystr_buf_new() -> (b: qdb_pystr_buf)
    ensures
        b@ == Seq::<ChunkView>::empty(),
        b.wf(),
{
    let b = qdb_pystr_buf { chain: Vec::new() };
    assert(b@ =~= Seq::<ChunkView>::empty());
    b
}

/// The current position: the number of chunks and the length of the last.
pub fn qdb_pystr_buf_tell(b: &qdb_pystr_buf) -> (p: qdb_pystr_pos)
    ensures
        pos_is(p, tell_of(b@)),
{
    let chain_pos = b.chain.len();
    let string_pos = if chain_pos > 0 {
        b.chain[chain_pos - 1].data.len()
    } else {
        0
    };
    proof {
        if chain_pos > 0 {
            assert(b@.last() == b.chain@[chain_pos - 1]@);
        }
    }
    qdb_pystr_pos { chain: chain_pos, string: string_pos }
}

/// Rolls the arena back to `pos`, a position that an earlier `tell` gave:
/// later chunks are dropped and the last one kept is cut back, its
/// allocation kept.
pub fn qdb_pystr_buf_truncate(b: &mut qdb_pystr_buf, pos: qdb_pystr_pos)
    requires
        old(b).wf(),
        pos.chain <= old(b)@.len(),
    ensures
        final(b).wf(),
        final(b)@ == truncate_of(old(b)@, pos.chain as int, pos.string as int),
{
    let ghost m = b@;
    b.chain.truncate(pos.chain);
    assert(b@ =~= m.take(pos.chain as int));
    if b.chain.len() > 0 {
        let ghost kept = b@;
        let mut last = b.chain.pop().unwrap();
        assert(kept.last() == last@);
        let ghost before = last.data@;
        last.data.truncate(pos.string);
        assert(pos.string >= before.len() ==> before.take(before.len() as int) =~= before);
        b.chain.push(last);
        assert(b@ =~= truncate_of(m, pos.chain as int, pos.string as int));
    }
}

/// Empties the arena but keeps its first chunk's allocation for reuse.
pub fn qdb_pystr_buf_clear(b: &mut qdb_pystr_buf)
    requires
        old(b).wf(),
    ensures
        final(b).wf(),
        final(b)@ == clear_of(old(b)@),
{
    if b.chain.len() > 0 {
        qdb_pystr_buf_truncate(b, qdb_pystr_pos { chain: 1, string: 0 });
    }
}

/// Releases the arena and every chunk it holds.
pub fn qdb_pystr_buf_free(b: qdb_pystr_buf) {
    let _ = b;
}

impl qdb_pystr_buf {
    /// The number of chunks in the chain.
    pub fn chain_len(&self) -> (n: usize)
        ensures
            n == self@.len(),
    {
        self.chain.len()
    }

    /// The bytes that chunk `i` holds.
    pub fn chunk(&self, i: usize) -> (r: &[u8])
        requires
            i < self@.len(),
        ensures
            r@ == self@[i as int].bytes,
    {
        self.chain[i].data.as_slice()
    }

    /// The capacity that chunk `i` was made with.
    pub fn chunk_capacity(&self, i: usize) -> (r: usize)
        requires
            i < self@.len(),
        ensures
            r == self@[i as int].capacity,
    {
        self.chain[i].cap
    }

    /// The bytes that `v` names.
    pub fn view_bytes(&self, v: &Utf8View) -> (r: &[u8])
        requires
            view_in(self@, *v),
        ensures
            r@ == bytes_at(self@, *v),
    {
        let data = self.chain[v.chunk].data.as_slice();
        assert(self@[v.chunk as int] == self.chain@[v.chunk as int]@);
        let n = data.len();
        assert(v.start + v.len <= n);
        vstd::slice::slice_subrange(data, v.start, v.start + v.len)
    }
}

/// Writing `out`, at most `n` bytes, after making room for `n` bytes keeps
/// every chunk within its capacity.
proof fn lemma_append_wf(m: Seq<ChunkView>, n: nat, out: Seq<u8>)
    requires
        chain_wf(m),
        out.len() <= n,
    ensures
        chain_wf(append_of(m, n, out)),
{
    let r = reserve_of(m, n);
    let a = append_of(m, n, out);
    assert forall|i: int| 0 <= i < a.len() implies (#[trigger] a[i]).bytes.len() <= a[i].capacity by {
        if i < r.len() - 1 {
            assert(a[i] == r[i]);
            if i < m.len() {
                assert(r[i] == m[i]);
            }
        }
    }
}

/// Encodes Latin-1 text into the arena. Every byte is a scalar value, so
/// this always succeeds; room for two bytes per unit is made first.
pub fn qdb_ucs1_to_utf8(b: &mut qdb_pystr_buf, input: &[u8]) -> (v: Utf8View)
    requires
        old(b).wf(),
        input@.len() * 2 <= usize::MAX,
    ensures
        final(b).wf(),
        final(b)@ == append_of(
            old(b)@,
            max_utf8_len(1) * input@.len(),
            utf8_of_units(widen1(input@)),
        ),
        appended_view(
            old(b)@,
            max_utf8_len(1) * input@.len(),
            utf8_of_units(widen1(input@)),
            v,
        ),
        extends(old(b)@, final(b)@),
        view_in(final(b)@, v),
        bytes_at(final(b)@, v) == utf8_of_units(widen1(input@)),
        v.len == input@.len() + high_count(input@),
{
    let ghost m = b@;
    let ghost out = utf8_of_units(widen1(input@));
    proof {
        lemma_utf8_len_bound(widen1(input@), 1);
    }
    get_dest(&mut b.chain, 2 * input.len());
    let ghost r = b@;
    assert(b.chain@.len() == r.len());
    // The tail chunk is taken out and put back; its bytes stay where they are.
    let mut dest = b.chain.pop().unwrap();
    assert(r.last() == dest@);
    assert(b@ =~= r.drop_last());
    let start = dest.data.len();
    encode_ucs1(&mut dest.data, input);
    let len = dest.data.len() - start;
    b.chain.push(dest);
    proof {
        lemma_append_wf(m, max_utf8_len(1) * input@.len(), out);
        lemma_append_extends(m, max_utf8_len(1) * input@.len(), out);
        assert(b@ =~= append_of(m, max_utf8_len(1) * input@.len(), out));
    }
    let v = Utf8View { chunk: b.chain.len() - 1, start, len };
    proof {
        lemma_appended_view_reads_out(m, max_utf8_len(1) * input@.len(), out, v);
        lemma_ucs1_len(input@);
    }
    v
}

/// Encodes text of two bytes per unit into the arena, each unit a scalar
/// value of its own. On the first unit that is not a scalar value the arena
/// is left exactly as it was and that unit is returned.
pub fn qdb_ucs2_to_utf8(b: &mut qdb_pystr_buf, input: &[u16]) -> (r: Result<Utf8View, u32>)
    requires
        old(b).wf(),
        input@.len() * 3 <= usize::MAX,
    ensures
        final(b).wf(),
        r.is_ok() <==> all_scalars(widen2(input@)),
        r matches Ok(v) ==> {
            &&& final(b)@ == append_of(
                old(b)@,
                max_utf8_len(2) * input@.len(),
                utf8_of_units(widen2(input@)),
            )
            &&& appended_view(
                old(b)@,
                max_utf8_len(2) * input@.len(),
                utf8_of_units(widen2(input@)),
                v,
            )
        },
        r matches Err(u) ==> final(b)@ == old(b)@ && first_invalid(widen2(input@), u),
        r matches Ok(v) ==> {
            &&& extends(old(b)@, final(b)@)
            &&& view_in(final(b)@, v)
            &&& bytes_at(final(b)@, v) == utf8_of_units(widen2(input@))
        },
{
    let ghost m = b@;
    let ghost out = utf8_of_units(widen2(input@));
    proof {
        lemma_utf8_len_bound(widen2(input@), 2);
    }
    let grew = get_dest(&mut b.chain, 3 * input.len());
    let ghost r = b@;
    assert(b.chain@.len() == r.len());
    // The tail chunk is taken out and put back; its bytes stay where they are.
    let mut dest = b.chain.pop().unwrap();
    assert(r.last() == dest@);
    assert(b@ =~= r.drop_last());
    let start = dest.data.len();
    match encode_ucs2(&mut dest.data, input) {
        Ok(()) => {
            let len = dest.data.len() - start;
            b.chain.push(dest);
            proof {
                lemma_append_wf(m, max_utf8_len(2) * input@.len(), out);
                lemma_append_extends(m, max_utf8_len(2) * input@.len(), out);
                assert(b@ =~= append_of(m, max_utf8_len(2) * input@.len(), out));
            }
            let v = Utf8View { chunk: b.chain.len() - 1, start, len };
            proof {
                lemma_appended_view_reads_out(m, max_utf8_len(2) * input@.len(), out, v);
            }
            Ok(v)
        },
        Err(u) => {
            assert(dest@ == r.last());
            if !grew {
                b.chain.push(dest);
                assert(b@ =~= r);
            }
            Err(u)
        },
    }
}

/// Encodes text of four bytes per unit into the arena, each unit a scalar
/// value of its own. On the first unit that is not a scalar value the arena
/// is left exactly as it was and that unit is returned.
pub fn qdb_ucs4_to_utf8(b: &mut qdb_pystr_buf, input: &[u32]) -> (r: Result<Utf8View, u32>)
    requires
        old(b).wf(),
        input@.len() * 4 <= usize::MAX,
    ensures
        final(b).wf(),
        r.is_ok() <==> all_scalars(input@),
        r matches Ok(v) ==> {
            &&& final(b)@ == append_of(
                old(b)@,
                max_utf8_len(4) * input@.len(),
                utf8_of_units(input@),
            )
            &&& appended_view(old(b)@, max_utf8_len(4) * input@.len(), utf8_of_units(input@), v)
        },
        r matches Err(u) ==> final(b)@ == old(b)@ && first_invalid(input@, u),
        r matches Ok(v) ==> {
            &&& extends(old(b)@, final(b)@)
            &&& view_in(final(b)@, v)
            &&& bytes_at(final(b)@, v) == utf8_of_units(input@)
        },
{
    let ghost m = b@;
    let ghost out = utf8_of_units(input@);
    proof {
        lemma_utf8_len_bound(input@, 4);
    }
    let grew = get_dest(&mut b.chain, 4 * input.len());
    let ghost r = b@;
    assert(b.chain@.len() == r.len());
    // The tail chunk is taken out and put back; its bytes stay where they are.
    let mut dest = b.chain.pop().unwrap();
    assert(r.last() == dest@);
    assert(b@ =~= r.drop_last());
    let start = dest.data.len();
    match encode_ucs4(&mut dest.data, input) {
        Ok(()) => {
            let len = dest.data.len() - start;
            b.chain.push(dest);
            proof {
                lemma_append_wf(m, max_utf8_len(4) * input@.len(), out);
                lemma_append_extends(m, max_utf8_len(4) * input@.len(), out);
                assert(b@ =~= append_of(m, max_utf8_len(4) * input@.len(), out));
            }
            let v = Utf8View { chunk: b.chain.len() - 1, start, len };
            proof {
                lemma_appended_view_reads_out(m, max_utf8_len(4) * input@.len(), out, v);
            }
            Ok(v)
        },
        Err(u) => {
            assert(dest@ == r.last());
            if !grew {
                b.chain.push(dest);
                assert(b@ =~= r);
            }
            Err(u)
        },
    }
}

/// The view that an encoding returns names exactly the bytes it wrote.
pub proof fn lemma_appended_view_reads_out(m: Seq<ChunkView>, n: nat, out: Seq<u8>, v: Utf8View)
    requires
        appended_view(m, n, out, v),
    ensures
        view_in(append_of(m, n, out), v),
        bytes_at(append_of(m, n, out), v) == out,
{
    let r = reserve_of(m, n);
    let a = append_of(m, n, out);
    assert(a[v.chunk as int].bytes == r.last().bytes + out);
    assert(bytes_at(a, v) =~= out);
}

/// Writing at the end of the chain only appends: nothing already there is
/// dropped, moved or changed.
pub proof fn lemma_append_extends(m: Seq<ChunkView>, n: nat, out: Seq<u8>)
    ensures
        extends(m, append_of(m, n, out)),
{
    let r = reserve_of(m, n);
    let a = append_of(m, n, out);
    assert forall|i: int| 0 <= i < m.len() implies {
        &&& (#[trigger] a[i]).capacity == m[i].capacity
        &&& m[i].bytes.len() <= a[i].bytes.len()
        &&& a[i].bytes.take(m[i].bytes.len() as int) == m[i].bytes
    } by {
        assert(r[i] == m[i]);
        if i == r.len() - 1 {
            assert(a[i].bytes.take(m[i].bytes.len() as int) =~= m[i].bytes);
        } else {
            assert(a[i] == r[i]);
            assert(m[i].bytes.take(m[i].bytes.len() as int) =~= m[i].bytes);
        }
    }
}

/// Extending twice is extending.
pub proof fn lemma_extends_trans(a: Seq<ChunkView>, b: Seq<ChunkView>, c: Seq<ChunkView>)
    requires
        extends(a, b),
        extends(b, c),
    ensures
        extends(a, c),
{
    assert forall|i: int| 0 <= i < a.len() implies {
        &&& (#[trigger] c[i]).capacity == a[i].capacity
        &&& a[i].bytes.len() <= c[i].bytes.len()
        &&& c[i].bytes.take(a[i].bytes.len() as int) == a[i].bytes
    } by {
        assert(b[i].bytes.take(a[i].bytes.len() as int) == a[i].bytes);
        assert(c[i].bytes.take(b[i].bytes.len() as int) == b[i].bytes);
        assert(c[i].bytes.take(a[i].bytes.len() as int) =~= a[i].bytes);
    }
}

/// A view into a chain still names the same bytes in any chain that extends
/// it.
pub proof fn lemma_view_stable(a: Seq<ChunkView>, b: Seq<ChunkView>, v: Utf8View)
    requires
        extends(a, b),
        view_in(a, v),
    ensures
        view_in(b, v),
        bytes_at(b, v) == bytes_at(a, v),
{
    let i = v.chunk as int;
    assert(b[i].bytes.take(a[i].bytes.len() as int) == a[i].bytes);
    assert(bytes_at(b, v) =~= bytes_at(a, v));
}

/// Views stay valid across encodings: along any run of successful
/// encodings with no truncate or clear between them, a view taken at any
/// step reads the same bytes, from the same chunk of unchanged capacity, at
/// the end of the run.
pub proof fn lemma_views_stable(
    states: Seq<Seq<ChunkView>>,
    budgets: Seq<nat>,
    outs: Seq<Seq<u8>>,
    k: int,
    v: Utf8View,
)
    requires
        states.len() == budgets.len() + 1,
        outs.len() == budgets.len(),
        forall|j: int|
            0 <= j < budgets.len() ==> #[trigger] states[j + 1] == append_of(
                states[j],
                budgets[j],
                outs[j],
            ),
        0 <= k < states.len(),
        view_in(states[k], v),
    ensures
        extends(states[k], states.last()),
        view_in(states.last(), v),
        bytes_at(states.last(), v) == bytes_at(states[k], v),
    decreases states.len() - k,
{
    let last = states.len() - 1;
    if k == last {
        assert forall|i: int| 0 <= i < states[k].len() implies states[k][i].bytes.take(
            states[k][i].bytes.len() as int,
        ) == (#[trigger] states[k][i]).bytes by {
            assert(states[k][i].bytes.take(states[k][i].bytes.len() as int) =~= states[k][i].bytes);
        }
    } else {
        assert(states[k + 1] == append_of(states[k], budgets[k], outs[k]));
        lemma_append_extends(states[k], budgets[k], outs[k]);
        lemma_view_stable(states[k], states[k + 1], v);
        lemma_views_stable(states, budgets, outs, k + 1, v);
        lemma_extends_trans(states[k], states[k + 1], states.last());
    }
}

/// Truncating to the position that `tell` just gave changes nothing.
pub proof fn lemma_truncate_at_tell(m: Seq<ChunkView>)
    ensures
        truncate_of(m, tell_of(m).0, tell_of(m).1) == m,
{
    if m.len() > 0 {
        assert(m.last().bytes.take(m.last().bytes.len() as int) =~= m.last().bytes);
        assert(truncate_of(m, tell_of(m).0, tell_of(m).1) =~= m);
    } else {
        assert(m.take(0) =~= m);
    }
}

/// An encoding that does not fit in the tail chunk adds exactly one chunk
/// and leaves every earlier chunk as it was; one that fits adds none.
pub proof fn lemma_growth_adds_one_chunk(m: Seq<ChunkView>, n: nat, out: Seq<u8>)
    ensures
        !tail_fits(m, n) ==> append_of(m, n, out).len() == m.len() + 1,
        !tail_fits(m, n) ==> forall|i: int| 0 <= i < m.len() ==> #[trigger] append_of(m, n, out)[i] == m[i],
        tail_fits(m, n) ==> append_of(m, n, out).len() == m.len(),
{
}

} // verus!
