//! The list of allocated blocks, threaded through their headers in the buffer.

use crate::block::{Block, BlockHeader, HEADER, NONE};
use crate::heap;
use crate::heap::Heap;
use crate::memory;
use vstd::prelude::*;

verus! {

/// The link to block `i`: its offset, or the end mark behind the last block.
pub open spec fn link(h: Heap, i: int) -> usize {
    if 0 <= i < h.blocks.len() {
        h.blocks[i].off as usize
    } else {
        NONE
    }
}

/// The header of block `i`.
pub open spec fn header(h: Heap, i: int) -> BlockHeader {
    BlockHeader {
        size: h.blocks[i].size as usize,
        align: h.blocks[i].align as usize,
        next: link(h, i + 1),
    }
}

/// The buffer holds the headers of the blocks, linked in the order of their offsets, and `head`
/// leads to the first one.
pub open spec fn linked(h: Heap, head: usize) -> bool {
    &&& head == link(h, 0)
    &&& forall|i: int|
        0 <= i < h.blocks.len() ==> memory::header_at(h.memory, h.blocks[i].off)
            == #[trigger] header(h, i)
}

/// The memory of `post` is that of `pre`, but for the header at `off` and, unless `prev` is the
/// end mark, the header at `prev`.
pub open spec fn written(pre: Seq<u8>, post: Seq<u8>, prev: usize, off: int) -> bool {
    &&& post.len() == pre.len()
    &&& forall|p: int|
        0 <= p < pre.len() && !(off <= p < off + HEADER) && !(prev != NONE && prev <= p < prev
            + HEADER) ==> #[trigger] post[p] == pre[p]
}

/// What a walk over the list reads at block `i`.
pub proof fn lemma_read(h: Heap, head: usize, i: int)
    requires
        h.wf(),
        linked(h, head),
        0 <= i < h.blocks.len(),
    ensures
        link(h, i) == h.blocks[i].off,
        link(h, i) != NONE,
        link(h, i) + HEADER <= h.length(),
        memory::header_at(h.memory, h.blocks[i].off) == header(h, i),
        header(h, i).size == h.blocks[i].size,
        header(h, i).align == h.blocks[i].align,
        h.address(i) <= usize::MAX,
        h.blocks[i].body(h.base) <= usize::MAX,
{
    heap::lemma_block(h, i);
}

/// Linking a new block into gap `k`.
pub proof fn lemma_insert(
    pre: Heap,
    pre_head: usize,
    post: Heap,
    post_head: usize,
    k: int,
    size: int,
    align: int,
)
    requires
        pre.wf(),
        linked(pre, pre_head),
        pre.fits(k, size, align),
        post.wf(),
        post.base == pre.base,
        post.blocks == pre.placed(k, size, align),
        written(pre.memory, post.memory, link(pre, k - 1), pre.gap_start(k)),
        memory::header_at(post.memory, pre.gap_start(k)) == (BlockHeader {
            size: size as usize,
            align: align as usize,
            next: link(pre, k),
        }),
        k == 0 ==> post_head == pre.gap_start(k),
        k > 0 ==> post_head == pre_head && memory::header_at(post.memory, pre.blocks[k - 1].off)
            == (BlockHeader { next: pre.gap_start(k) as usize, ..header(pre, k - 1) }),
    ensures
        linked(post, post_head),
        post.only_headers_written(pre),
{
    let c = pre.candidate(k, size, align);
    assert(post.blocks[k] == c);
    heap::lemma_block(post, k);
    if k > 0 {
        assert(post.blocks[k - 1] == pre.blocks[k - 1]);
        lemma_read(pre, pre_head, k - 1);
    }
    assert forall|i: int| 0 <= i < post.blocks.len() implies memory::header_at(
        post.memory,
        post.blocks[i].off,
    ) == #[trigger] header(post, i) by {
        heap::lemma_block(post, i);
        if i < k - 1 {
            assert(post.blocks[i] == pre.blocks[i]);
            assert(post.blocks[i + 1] == pre.blocks[i + 1]);
            heap::lemma_apart(post, i, k - 1);
            heap::lemma_apart(post, i, k);
            memory::lemma_same_header(pre.memory, post.memory, pre.blocks[i].off);
            assert(header(post, i) == header(pre, i));
        } else if i > k {
            assert(post.blocks[i] == pre.blocks[i - 1]);
            if i + 1 < post.blocks.len() {
                assert(post.blocks[i + 1] == pre.blocks[i]);
            }
            heap::lemma_apart(post, k, i);
            if k > 0 {
                heap::lemma_apart(post, k - 1, i);
            }
            memory::lemma_same_header(pre.memory, post.memory, pre.blocks[i - 1].off);
            assert(header(post, i) == header(pre, i - 1));
        } else if i == k {
            if k + 1 < post.blocks.len() {
                assert(post.blocks[k + 1] == pre.blocks[k]);
            }
        }
    }
    assert forall|p: int|
        0 <= p < post.length() && post.outside_headers(p) implies #[trigger]
    post.memory[p] == pre.memory[p] by {
        assert(!post.in_header(k, p));
        assert(!post.in_header(k - 1, p));
    }
}

/// Unlinking block `i`.
pub proof fn lemma_remove(pre: Heap, pre_head: usize, post: Heap, post_head: usize, i: int)
    requires
        pre.wf(),
        linked(pre, pre_head),
        0 <= i < pre.blocks.len(),
        post.wf(),
        post.base == pre.base,
        post.blocks == pre.blocks.remove(i),
        i == 0 ==> post_head == link(pre, 1) && post.memory == pre.memory,
        i > 0 ==> {
            &&& post_head == pre_head
            &&& written(pre.memory, post.memory, NONE, pre.blocks[i - 1].off)
            &&& memory::header_at(post.memory, pre.blocks[i - 1].off) == (BlockHeader {
                next: link(pre, i + 1),
                ..header(pre, i - 1)
            })
        },
    ensures
        linked(post, post_head),
        post.only_headers_written(pre),
{
    if i > 0 {
        lemma_read(pre, pre_head, i - 1);
    }
    assert forall|j: int| 0 <= j < post.blocks.len() implies memory::header_at(
        post.memory,
        post.blocks[j].off,
    ) == #[trigger] header(post, j) by {
        if j < i - 1 {
            assert(post.blocks[j] == pre.blocks[j]);
            heap::lemma_block(pre, j);
            heap::lemma_apart(pre, j, i - 1);
            memory::lemma_same_header(pre.memory, post.memory, pre.blocks[j].off);
            assert(header(post, j) == header(pre, j));
        } else if j >= i {
            assert(post.blocks[j] == pre.blocks[j + 1]);
            heap::lemma_block(pre, j + 1);
            if i > 0 {
                heap::lemma_apart(pre, i - 1, j + 1);
                memory::lemma_same_header(pre.memory, post.memory, pre.blocks[j + 1].off);
            }
            assert(header(post, j) == header(pre, j + 1));
        } else {
            assert(post.blocks[j] == pre.blocks[j]);
        }
    }
    assert forall|p: int|
        0 <= p < post.length() && post.outside_headers(p) implies #[trigger]
    post.memory[p] == pre.memory[p] by {
        assert(!post.in_header(i - 1, p));
    }
}

/// Replacing block `i` by `b`, between the blocks around it: its header is stored at its place,
/// and the block before it, or the head, leads there.
pub proof fn lemma_replace(
    pre: Heap,
    pre_head: usize,
    post: Heap,
    post_head: usize,
    i: int,
    b: Block,
)
    requires
        pre.wf(),
        linked(pre, pre_head),
        0 <= i < pre.blocks.len(),
        post.wf(),
        post.base == pre.base,
        post.length() == pre.length(),
        post.blocks == pre.blocks.update(i, b),
        memory::header_at(post.memory, b.off) == (BlockHeader {
            size: b.size as usize,
            align: b.align as usize,
            next: link(pre, i + 1),
        }),
        i == 0 ==> post_head == b.off,
        i > 0 ==> post_head == pre_head && memory::header_at(post.memory, pre.blocks[i - 1].off)
            == (BlockHeader { next: b.off as usize, ..header(pre, i - 1) }),
        forall|j: int, p: int|
            0 <= j < pre.blocks.len() && j != i && j != i - 1 && #[trigger] pre.in_header(j, p)
                ==> post.memory[p] == pre.memory[p],
    ensures
        linked(post, post_head),
{
    assert forall|j: int| 0 <= j < post.blocks.len() implies memory::header_at(
        post.memory,
        post.blocks[j].off,
    ) == #[trigger] header(post, j) by {
        if j != i && j != i - 1 {
            assert(post.blocks[j] == pre.blocks[j]);
            heap::lemma_block(pre, j);
            assert forall|p: int|
                pre.blocks[j].off <= p < pre.blocks[j].off + HEADER implies #[trigger]
            post.memory[p] == pre.memory[p] by {
                assert(pre.in_header(j, p));
            }
            memory::lemma_same_header(pre.memory, post.memory, pre.blocks[j].off);
            assert(header(post, j) == header(pre, j));
        }
    }
}

/// Writing the size in the header of block `i` resizes it.
pub proof fn lemma_resized(pre: Heap, head: usize, post: Heap, i: int, size: int)
    requires
        pre.wf(),
        linked(pre, head),
        0 <= i < pre.blocks.len(),
        0 <= size <= usize::MAX,
        post.wf(),
        post.base == pre.base,
        post.blocks == pre.resized(i, size),
        written(pre.memory, post.memory, NONE, pre.blocks[i].off),
        memory::header_at(post.memory, pre.blocks[i].off) == (BlockHeader {
            size: size as usize,
            ..header(pre, i)
        }),
    ensures
        linked(post, head),
        post.only_headers_written(pre),
{
    let b = Block { size, ..pre.blocks[i] };
    lemma_read(pre, head, i);
    if i > 0 {
        lemma_read(pre, head, i - 1);
        heap::lemma_apart(pre, i - 1, i);
        heap::lemma_block(pre, i - 1);
        memory::lemma_same_header(pre.memory, post.memory, pre.blocks[i - 1].off);
    }
    assert forall|j: int, p: int|
        0 <= j < pre.blocks.len() && j != i && j != i - 1 && #[trigger] pre.in_header(
            j,
            p,
        ) implies post.memory[p] == pre.memory[p] by {
        heap::lemma_block(pre, j);
        if j < i {
            heap::lemma_apart(pre, j, i);
        } else {
            heap::lemma_apart(pre, i, j);
        }
    }
    lemma_replace(pre, head, post, head, i, b);
    assert forall|p: int|
        0 <= p < post.length() && post.outside_headers(p) implies #[trigger]
    post.memory[p] == pre.memory[p] by {
        assert(!post.in_header(i, p));
    }
}

/// Writing user bytes of block `k` alone leaves the list as it is.
pub proof fn lemma_content_written(pre: Heap, head: usize, post: Heap, k: int)
    requires
        pre.wf(),
        linked(pre, head),
        0 <= k < pre.blocks.len(),
        post.base == pre.base,
        post.blocks == pre.blocks,
        post.length() == pre.length(),
        forall|p: int|
            0 <= p < pre.length() && !pre.covers(k, pre.base + p) ==> #[trigger] post.memory[p]
                == pre.memory[p],
    ensures
        linked(post, head),
{
    heap::lemma_block(pre, k);
    assert forall|i: int| 0 <= i < post.blocks.len() implies memory::header_at(
        post.memory,
        post.blocks[i].off,
    ) == #[trigger] header(post, i) by {
        heap::lemma_block(pre, i);
        if i < k {
            heap::lemma_apart(pre, i, k);
        } else if i > k {
            heap::lemma_apart(pre, k, i);
        }
        memory::lemma_same_header(pre.memory, post.memory, pre.blocks[i].off);
        assert(header(post, i) == header(pre, i));
    }
}

/// A block was placed in gap `k` of `pre`, `n` bytes of block `i` were copied to it, and block `i`
/// was freed.
pub proof fn lemma_relocated(
    pre: Heap,
    mid: Heap,
    moved: Heap,
    post: Heap,
    i: int,
    k: int,
    size: int,
    align: int,
    n: int,
)
    requires
        pre.wf(),
        mid.wf(),
        moved.wf(),
        post.wf(),
        0 <= i < pre.blocks.len(),
        pre.fits(k, size, align),
        0 <= n <= size,
        n <= pre.blocks[i].size,
        mid.blocks == pre.placed(k, size, align),
        mid.only_headers_written(pre),
        moved == (Heap {
            memory: memory::copied(
                mid.memory,
                pre.address(i) - pre.base,
                mid.address(k) - pre.base,
                n,
            ),
            ..mid
        }),
        post.blocks == moved.blocks.remove(Heap::shifted(i, k)),
        post.only_headers_written(moved),
    ensures
        post.blocks == pre.relocated(i, k, size, align),
        post.bytes_moved(pre, mid.blocks, pre.address(i), mid.address(k), n),
{
    let s = Heap::shifted(i, k);
    let from = pre.address(i) - pre.base;
    let to = mid.address(k) - pre.base;
    assert(mid.blocks[s] == pre.blocks[i]);
    heap::lemma_block(mid, s);
    heap::lemma_block(mid, k);
    let headers = Heap { blocks: mid.blocks, ..pre };
    assert forall|p: int| #[trigger] headers.outside_headers(p) implies mid.outside_headers(p)
        && post.outside_headers(p) by {
        assert forall|j: int| !mid.in_header(j, p) by {
            assert(!headers.in_header(j, p));
        }
        assert forall|j: int| !post.in_header(j, p) by {
            let x = if j < s {
                j
            } else {
                j + 1
            };
            assert(!headers.in_header(x, p));
        }
    }
    let copy = post.bytes_at(mid.address(k), n);
    let source = pre.bytes_at(pre.address(i), n);
    assert forall|t: int| 0 <= t < n implies copy[t] == source[t] by {
        heap::lemma_user_byte_outside_headers(mid, s, from + t);
        heap::lemma_user_byte_outside_headers(mid, k, to + t);
        let q = to + t;
        assert(headers.outside_headers(q)) by {
            assert forall|j: int| !headers.in_header(j, q) by {
                assert(!mid.in_header(j, q));
            }
        }
        assert(moved.memory[to + t] == mid.memory[from + t]);
    }
    assert(copy =~= source);
}

/// Block `i` was copied to the start of the gap before it: its user bytes, its header, and the
/// link to it. The list leads to it there, and no block has lost its user bytes.
pub proof fn lemma_slid(pre: Heap, pre_head: usize, post: Heap, post_head: usize, i: int)
    requires
        pre.wf(),
        linked(pre, pre_head),
        0 <= i < pre.blocks.len(),
        post.wf(),
        post.base == pre.base,
        post.blocks == pre.blocks.update(i, pre.blocks[i].at(pre.gap_start(i))),
        written(
            memory::copied(
                pre.memory,
                pre.address(i) - pre.base,
                post.address(i) - pre.base,
                pre.blocks[i].size,
            ),
            post.memory,
            link(pre, i - 1),
            pre.gap_start(i),
        ),
        memory::header_at(post.memory, pre.gap_start(i)) == header(pre, i),
        i == 0 ==> post_head == pre.gap_start(i),
        i > 0 ==> post_head == pre_head && memory::header_at(post.memory, pre.blocks[i - 1].off)
            == (BlockHeader { next: pre.gap_start(i) as usize, ..header(pre, i - 1) }),
    ensures
        linked(post, post_head),
        post.only_block_written(pre, i),
        forall|j: int|
            0 <= j < pre.blocks.len() ==> #[trigger] post.content(j) == pre.content(j),
{
    let b = pre.blocks[i];
    let m = b.at(pre.gap_start(i));
    let to = post.address(i) - pre.base;
    heap::lemma_block(pre, i);
    heap::lemma_block(post, i);
    heap::lemma_gap(pre, i);
    heap::lemma_slide(pre, i);
    if i > 0 {
        lemma_read(pre, pre_head, i - 1);
        heap::lemma_block(pre, i - 1);
    }
    assert forall|j: int, p: int|
        0 <= j < pre.blocks.len() && j != i && j != i - 1 && #[trigger] pre.in_header(
            j,
            p,
        ) implies post.memory[p] == pre.memory[p] by {
        heap::lemma_block(pre, j);
        if j < i {
            heap::lemma_apart(pre, j, i - 1);
        }
    }
    lemma_replace(pre, pre_head, post, post_head, i, m);
    assert(post.only_block_written(pre, i)) by {
        assert forall|p: int|
            0 <= p < post.length() && !post.covers(i, post.base + p) && !post.in_header(i, p)
                && !post.in_header(i - 1, p) implies #[trigger] post.memory[p]
            == pre.memory[p] by {
            assert(!(to <= p < to + b.size));
        }
    }
    assert forall|j: int| 0 <= j < pre.blocks.len() implies #[trigger] post.content(j)
        == pre.content(j) by {
        heap::lemma_block(pre, j);
        if j < i - 1 {
            heap::lemma_apart(pre, j, i - 1);
        } else if j > i {
            heap::lemma_apart(pre, i, j);
        }
        assert(post.content(j) =~= pre.content(j));
    }
}

} // verus!
