//! Cutting a file into parts of nearly equal size.

use vstd::arithmetic::div_mod::lemma_fundamental_div_mod;
use vstd::prelude::*;

verus! {

/// 4MiB
pub const DEFAULT_CHUNK_SIZE: u32 = 0x40_0000;

/// The quotient of `a` by `b`, rounded up.
pub open spec fn div_up(a: int, b: int) -> int {
    (a + b - 1) / b
}

/// The least of two integers.
pub open spec fn least(a: int, b: int) -> int {
    if a <= b {
        a
    } else {
        b
    }
}

/// The sum of a sequence of part sizes.
pub open spec fn total(parts: Seq<u32>) -> int
    decreases parts.len(),
{
    if parts.len() == 0 {
        0
    } else {
        parts.first() + total(parts.drop_first())
    }
}

proof fn lemma_div_up_bounds(a: int, b: int)
    requires
        a >= 0,
        b > 0,
    ensures
        div_up(a, b) >= 0,
        div_up(a, b) * b >= a,
        div_up(a, b) * b < a + b,
        a > 0 ==> div_up(a, b) >= 1,
{
    let q = div_up(a, b);
    lemma_fundamental_div_mod(a + b - 1, b);
    assert(b * q == q * b) by (nonlinear_arith);
    assert(q * b >= a && q * b < a + b);
    assert(q >= 0 && (a > 0 ==> q >= 1)) by (nonlinear_arith)
        requires
            q * b >= a,
            a >= 0,
            b > 0,
    ;
}

/// Any multiple of `b` that covers `a` has at least `div_up(a, b)` as its factor, and the
/// first such factor is `div_up(a, b)`.
proof fn lemma_div_up_unique(a: int, b: int, q: int)
    requires
        a >= 0,
        b > 0,
        q * b >= a,
        q * b < a + b,
    ensures
        q == div_up(a, b),
{
    lemma_div_up_bounds(a, b);
    let d = div_up(a, b);
    assert(q == d) by (nonlinear_arith)
        requires
            b > 0,
            q * b >= a,
            q * b < a + b,
            d * b >= a,
            d * b < a + b,
    ;
}

/// Divides and rounds up.
fn div_ceil(a: u64, b: u64) -> (q: u64)
    requires
        b > 0,
    ensures
        q == div_up(a as int, b as int),
{
    let whole: u64 = a / b;
    let rest: u64 = a % b;
    proof {
        lemma_fundamental_div_mod(a as int, b as int);
        assert((whole as int) * (b as int) == (b as int) * (whole as int)) by (nonlinear_arith);
    }
    if rest == 0 {
        proof {
            lemma_div_up_unique(a as int, b as int, whole as int);
        }
        whole
    } else {
        proof {
            assert((whole + 1) * (b as int) == whole * (b as int) + b) by (nonlinear_arith);
            assert(whole < a) by (nonlinear_arith)
                requires
                    a == b * whole + rest,
                    rest > 0,
                    b > 0,
            ;
            lemma_div_up_unique(a as int, b as int, whole + 1);
        }
        whole + 1
    }
}

/// Hands out the sizes of the parts into which a number of bytes is cut.
pub struct Splitter {
    /// The bytes that no part covers yet.
    pub bytes_left: u64,
    /// The size of every part but the last.
    pub goal_size: u32,
}

impl Splitter {
    /// How many parts are still to come.
    pub open spec fn count(self) -> int {
        div_up(self.bytes_left as int, self.goal_size as int)
    }

    /// The sizes of the parts that are still to come.
    pub open spec fn parts(self) -> Seq<u32> {
        Seq::new(
            self.count() as nat,
            |i: int| least(self.goal_size as int, self.bytes_left - i * self.goal_size) as u32,
        )
    }

    /// Parts can be handed out.
    pub open spec fn wf(self) -> bool {
        self.goal_size > 0
    }

    /// Plans the parts of `len` bytes.
    pub fn new(len: u64) -> (s: Self)
        ensures
            s.wf(),
            s.bytes_left == len,
            len == 0 ==> s.goal_size == 1,
            len > 0 ==> s.goal_size == div_up(
                len as int,
                div_up(len as int, DEFAULT_CHUNK_SIZE as int),
            ),
    {
        if len == 0 {
            return Self { bytes_left: 0, goal_size: 1 };
        }
        let chunks: u64 = div_ceil(len, DEFAULT_CHUNK_SIZE as u64);
        proof {
            lemma_div_up_bounds(len as int, DEFAULT_CHUNK_SIZE as int);
        }
        let goal: u64 = div_ceil(len, chunks);
        proof {
            lemma_goal_size(len as int);
        }
        Self { bytes_left: len, goal_size: goal as u32 }
    }

    /// The size of the next part.
    pub fn next(&mut self) -> (part: Option<u32>)
        ensures
            part is None <==> old(self).bytes_left == 0,
            part matches Some(size) ==> size == least(
                old(self).goal_size as int,
                old(self).bytes_left as int,
            ),
            final(self).bytes_left == old(self).bytes_left - (match part {
                Some(size) => size as int,
                None => 0int,
            }),
            final(self).goal_size == old(self).goal_size,
    {
        if self.bytes_left > self.goal_size as u64 {
            self.bytes_left = self.bytes_left - self.goal_size as u64;
            Some(self.goal_size)
        } else if self.bytes_left > 0 {
            let remainder: u32 = self.bytes_left as u32;
            self.bytes_left = 0;
            Some(remainder)
        } else {
            None
        }
    }

    /// The number of parts that are still to come, as a lower and an upper bound.
    pub fn size_hint(&self) -> (hint: (usize, Option<usize>))
        requires
            self.wf(),
        ensures
            hint.0 == (self.count() as u64) as usize,
            hint.1 == Some(hint.0),
    {
        let num: usize = div_ceil(self.bytes_left, self.goal_size as u64) as usize;
        (num, Some(num))
    }

    /// The sizes of all the parts that are still to come, in order.
    pub fn collect(self) -> (sizes: Vec<u32>)
        requires
            self.wf(),
        ensures
            sizes@ == self.parts(),
    {
        let mut splitter = Splitter { bytes_left: self.bytes_left, goal_size: self.goal_size };
        let mut sizes: Vec<u32> = Vec::new();
        loop
            invariant
                self.wf(),
                splitter.wf(),
                sizes@ + splitter.parts() == self.parts(),
            ensures
                sizes@ == self.parts(),
            decreases splitter.bytes_left,
        {
            let ghost before = splitter;
            match splitter.next() {
                Some(size) => {
                    proof {
                        lemma_parts_step(before);
                        assert(sizes@ + before.parts() =~= sizes@.push(size) + splitter.parts());
                    }
                    sizes.push(size);
                },
                None => {
                    proof {
                        lemma_div_up_unique(0, splitter.goal_size as int, 0);
                        assert(splitter.parts() =~= Seq::<u32>::empty());
                        assert(sizes@ + splitter.parts() =~= sizes@);
                    }
                    break;
                },
            }
        }
        sizes
    }
}

/// The goal size of a non-empty file is between one byte and the default chunk size.
proof fn lemma_goal_size(len: int)
    requires
        len > 0,
    ensures
        0 < div_up(len, div_up(len, DEFAULT_CHUNK_SIZE as int)) <= DEFAULT_CHUNK_SIZE,
{
    let c = DEFAULT_CHUNK_SIZE as int;
    let chunks = div_up(len, c);
    lemma_div_up_bounds(len, c);
    let goal = div_up(len, chunks);
    lemma_div_up_bounds(len, chunks);
    assert(goal <= c) by (nonlinear_arith)
        requires
            goal * chunks < len + chunks,
            chunks * c >= len,
            chunks >= 1,
    ;
}

/// Taking one part leaves the rest of the parts to come.
proof fn lemma_parts_step(s: Splitter)
    requires
        s.wf(),
        s.bytes_left > 0,
    ensures
        ({
            let size = least(s.goal_size as int, s.bytes_left as int) as u32;
            let rest = Splitter {
                bytes_left: (s.bytes_left - size) as u64,
                goal_size: s.goal_size,
            };
            &&& s.count() >= 1
            &&& s.parts() == seq![size] + rest.parts()
            &&& rest.count() == s.count() - 1
        }),
{
    let g = s.goal_size as int;
    let n = s.bytes_left as int;
    let size = least(g, n) as u32;
    let rest = Splitter { bytes_left: (s.bytes_left - size) as u64, goal_size: s.goal_size };
    lemma_div_up_bounds(n, g);
    let q = s.count();
    assert((q - 1) * g == q * g - g) by (nonlinear_arith);
    if n > g {
        lemma_div_up_unique(n - g, g, q - 1);
    } else {
        assert(q == 1) by (nonlinear_arith)
            requires
                q * g < n + g,
                n <= g,
                q >= 1,
                g > 0,
        ;
        lemma_div_up_unique(0, g, 0);
    }
    assert(s.parts() =~= seq![size] + rest.parts()) by {
        assert forall|i: int| 0 <= i < s.count() implies s.parts()[i] == (seq![size]
            + rest.parts())[i] by {
            if i > 0 {
                assert(n - i * g == (n - g) - (i - 1) * g) by (nonlinear_arith);
            }
        }
    }
}

/// Every part is non-empty, no part is larger than the goal size, and every part but the last
/// has exactly the goal size.
pub proof fn parts_are_even(s: Splitter)
    requires
        s.wf(),
    ensures
        forall|i: int| 0 <= i < s.parts().len() ==> 0 < #[trigger] s.parts()[i] <= s.goal_size,
        forall|i: int| 0 <= i < s.parts().len() - 1 ==> #[trigger] s.parts()[i] == s.goal_size,
{
    let g = s.goal_size as int;
    let n = s.bytes_left as int;
    lemma_div_up_bounds(n, g);
    let q = s.count();
    assert forall|i: int| 0 <= i < s.parts().len() implies 0 < #[trigger] s.parts()[i]
        <= s.goal_size by {
        assert(n - i * g > 0) by (nonlinear_arith)
            requires
                q * g < n + g,
                i <= q - 1,
                g > 0,
        ;
    }
    assert forall|i: int| 0 <= i < s.parts().len() - 1 implies #[trigger] s.parts()[i]
        == s.goal_size by {
        assert(n - i * g >= g) by (nonlinear_arith)
            requires
                q * g < n + g,
                i <= q - 2,
                g > 0,
        ;
    }
}

/// The parts cover the bytes that are left: their sizes sum to them.
pub proof fn parts_cover_everything(s: Splitter)
    requires
        s.wf(),
    ensures
        total(s.parts()) == s.bytes_left,
    decreases s.bytes_left,
{
    if s.bytes_left == 0 {
        lemma_div_up_unique(0, s.goal_size as int, 0);
        assert(s.parts() =~= Seq::<u32>::empty());
    } else {
        let size = least(s.goal_size as int, s.bytes_left as int) as u32;
        let rest = Splitter { bytes_left: (s.bytes_left - size) as u64, goal_size: s.goal_size };
        lemma_parts_step(s);
        parts_cover_everything(rest);
        assert(s.parts().drop_first() =~= rest.parts());
    }
}

/// A file is cut into as few parts as the default chunk size allows.
pub proof fn parts_are_few(s: Splitter)
    requires
        s.wf(),
        s.bytes_left == 0 ==> s.goal_size == 1,
        s.bytes_left > 0 ==> s.goal_size == div_up(
            s.bytes_left as int,
            div_up(s.bytes_left as int, DEFAULT_CHUNK_SIZE as int),
        ),
    ensures
        s.goal_size <= DEFAULT_CHUNK_SIZE,
        s.parts().len() == div_up(s.bytes_left as int, DEFAULT_CHUNK_SIZE as int),
{
    let c = DEFAULT_CHUNK_SIZE as int;
    let n = s.bytes_left as int;
    let g = s.goal_size as int;
    if n == 0 {
        lemma_div_up_unique(0, c, 0);
        lemma_div_up_unique(0, g, 0);
    } else {
        lemma_goal_size(n);
        let chunks = div_up(n, c);
        lemma_div_up_bounds(n, c);
        lemma_div_up_bounds(n, chunks);
        assert(chunks * g >= n) by (nonlinear_arith)
            requires
                g * chunks >= n,
        ;
        assert(chunks * g < n + g) by (nonlinear_arith)
            requires
                chunks * c < n + c,
                g <= c,
                g > 0,
                chunks >= 1,
        ;
        lemma_div_up_unique(n, g, chunks);
    }
}

/// Taking the next part leaves the other parts: the part that is handed out is the first of those
/// that are still to come.
pub proof fn the_next_part_is_the_first(s: Splitter)
    requires
        s.wf(),
        s.bytes_left > 0,
    ensures
        ({
            let size = least(s.goal_size as int, s.bytes_left as int);
            let rest = Splitter {
                bytes_left: (s.bytes_left - size) as u64,
                goal_size: s.goal_size,
            };
            &&& 0 < size <= s.bytes_left
            &&& s.parts().len() > 0
            &&& s.parts().first() == size
            &&& s.parts().drop_first() == rest.parts()
        }),
{
    lemma_parts_step(s);
    let size = least(s.goal_size as int, s.bytes_left as int) as u32;
    let rest = Splitter { bytes_left: (s.bytes_left - size) as u64, goal_size: s.goal_size };
    assert((seq![size] + rest.parts()).drop_first() =~= rest.parts());
}

/// A file is cut into the least number of parts of at most four mebibytes that cover it, and the
/// parts have the least size with which so many of them cover it.
pub proof fn a_file_is_cut_into_few_even_parts(s: Splitter)
    requires
        s.bytes_left > 0,
        s.goal_size == div_up(
            s.bytes_left as int,
            div_up(s.bytes_left as int, DEFAULT_CHUNK_SIZE as int),
        ),
    ensures
        ({
            let n = s.parts().len() as int;
            &&& n * (4 * 1024 * 1024) >= s.bytes_left
            &&& (n - 1) * (4 * 1024 * 1024) < s.bytes_left
            &&& n * s.goal_size >= s.bytes_left
            &&& n * (s.goal_size - 1) < s.bytes_left
            &&& s.goal_size <= 4 * 1024 * 1024
        }),
{
    let len = s.bytes_left as int;
    let c = DEFAULT_CHUNK_SIZE as int;
    lemma_goal_size(len);
    parts_are_few(s);
    let n = s.parts().len() as int;
    lemma_div_up_bounds(len, c);
    lemma_div_up_bounds(len, n);
    let g = s.goal_size as int;
    assert(n * g == g * n && n * (g - 1) == g * n - n && (n - 1) * c == n * c - c)
        by (nonlinear_arith);
}

/// The sizes of the parts add up to the bytes that are left.
pub proof fn parts_add_up(s: Splitter)
    requires
        s.wf(),
    ensures
        s.parts().fold_left(0int, |sum: int, part: u32| sum + part) == s.bytes_left,
{
    parts_cover_everything(s);
    lemma_total_is_a_sum(s.parts());
}

proof fn lemma_total_is_a_sum(parts: Seq<u32>)
    ensures
        total(parts) == parts.fold_left(0int, |sum: int, part: u32| sum + part),
    decreases parts.len(),
{
    if parts.len() > 0 {
        lemma_total_is_a_sum(parts.drop_last());
        lemma_total_of_last(parts);
    }
}

proof fn lemma_total_of_last(parts: Seq<u32>)
    requires
        parts.len() > 0,
    ensures
        total(parts) == total(parts.drop_last()) + parts.last(),
    decreases parts.len(),
{
    if parts.len() > 1 {
        lemma_total_of_last(parts.drop_first());
        assert(parts.drop_first().drop_last() =~= parts.drop_last().drop_first());
        assert(parts.drop_last().first() == parts.first());
        assert(parts.drop_first().last() == parts.last());
    } else {
        assert(total(parts.drop_first()) == 0);
        assert(total(parts.drop_last()) == 0);
    }
}

/// As many parts are announced as come: the least number of parts of the goal size that cover the
/// bytes that are left.
pub proof fn as_many_parts_come_as_are_announced(s: Splitter)
    requires
        s.wf(),
    ensures
        s.count() == s.parts().len(),
        s.count() * s.goal_size >= s.bytes_left,
        (s.count() - 1) * s.goal_size < s.bytes_left,
{
    lemma_div_up_bounds(s.bytes_left as int, s.goal_size as int);
    let q = s.count();
    let g = s.goal_size as int;
    assert((q - 1) * g == q * g - g) by (nonlinear_arith);
}

} // verus!
