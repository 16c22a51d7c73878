//! The argument vector that exec writes onto a fresh user stack: the strings,
//! each with a zero terminator, below a zero-terminated array of pointers to
//! them, with the stack pointer aligned to a word.
use vstd::prelude::*;

verus! {

/// Bytes of a machine word.
pub const WORD: usize = 8;

/// The little-endian bytes of `x`, `k` of them.
pub open spec fn le_bytes(x: nat, k: nat) -> Seq<u8>
    decreases k,
{
    if k == 0 {
        Seq::empty()
    } else {
        seq![(x % 256) as u8] + le_bytes(x / 256, (k - 1) as nat)
    }
}

/// `x` as a little-endian machine word.
pub open spec fn word(x: nat) -> Seq<u8> {
    le_bytes(x, WORD as nat)
}

/// The arguments as byte sequences.
pub open spec fn arg_seqs(args: Seq<Vec<u8>>) -> Seq<Seq<u8>> {
    args.map_values(|a: Vec<u8>| a@)
}

/// Bytes taken by the first `k` strings with their terminators.
pub open spec fn strings_len(args: Seq<Seq<u8>>, k: int) -> int
    decreases k,
{
    if k <= 0 {
        0
    } else {
        strings_len(args, k - 1) + args[k - 1].len() + 1
    }
}

/// Strings `hi - 1` down to `lo`, each followed by a zero, from low to high
/// addresses: later strings lie lower on the stack.
pub open spec fn strings_range(args: Seq<Seq<u8>>, lo: int, hi: int) -> Seq<u8>
    decreases hi - lo,
{
    if hi <= lo {
        Seq::empty()
    } else {
        args[hi - 1] + seq![0u8] + strings_range(args, lo, hi - 1)
    }
}

/// Address of the pointer array: one word per argument and a null word
/// below the stack top.
pub open spec fn argv_base_of(top: int, args: Seq<Seq<u8>>) -> int {
    top - WORD * (args.len() + 1)
}

/// Address of string `i`: the strings are stacked downwards from the array.
pub open spec fn str_addr(top: int, args: Seq<Seq<u8>>, i: int) -> int {
    argv_base_of(top, args) - strings_len(args, i + 1)
}

/// Pointers to the first `k` strings, in order, as words.
pub open spec fn pointers(top: int, args: Seq<Seq<u8>>, k: int) -> Seq<u8>
    decreases k,
{
    if k <= 0 {
        Seq::empty()
    } else {
        pointers(top, args, k - 1) + word(str_addr(top, args, k - 1) as nat)
    }
}

/// Lowest byte of the strings.
pub open spec fn strings_low(top: int, args: Seq<Seq<u8>>) -> int {
    argv_base_of(top, args) - strings_len(args, args.len() as int)
}

/// The stack pointer handed to user code: below the strings, word aligned.
pub open spec fn sp_of(top: int, args: Seq<Seq<u8>>) -> int {
    strings_low(top, args) - strings_low(top, args) % WORD as int
}

/// What lies between the stack pointer and the stack top: alignment
/// padding, the strings, the pointer array and its null word.
pub open spec fn stack_image(top: int, args: Seq<Seq<u8>>) -> Seq<u8> {
    Seq::new((strings_low(top, args) - sp_of(top, args)) as nat, |i: int| 0u8) + strings_range(
        args,
        0,
        args.len() as int,
    ) + pointers(top, args, args.len() as int) + word(0)
}

/// The argument area built for a user stack.
pub struct ArgvImage {
    /// The stack pointer after the arguments are pushed.
    pub sp: usize,
    /// Address of the pointer array.
    pub argv_base: usize,
    /// The bytes from `sp` up to the stack top.
    pub bytes: Vec<u8>,
}

proof fn lemma_strings_range_grow(args: Seq<Seq<u8>>, lo: int, hi: int)
    requires
        0 < lo <= hi,
    ensures
        strings_range(args, lo - 1, hi) == strings_range(args, lo, hi) + args[lo - 1] + seq![0u8],
    decreases hi - lo,
{
    if hi == lo {
        assert(strings_range(args, lo - 1, hi) =~= args[lo - 1] + seq![0u8] + strings_range(args, lo - 1, hi - 1));
        assert(strings_range(args, lo - 1, hi - 1) =~= Seq::<u8>::empty());
        assert(strings_range(args, lo, hi) =~= Seq::<u8>::empty());
        assert(strings_range(args, lo - 1, hi) =~= strings_range(args, lo, hi) + args[lo - 1] + seq![0u8]);
    } else {
        lemma_strings_range_grow(args, lo, hi - 1);
        assert(strings_range(args, lo - 1, hi) =~= args[hi - 1] + seq![0u8] + strings_range(args, lo - 1, hi - 1));
        assert(strings_range(args, lo, hi) =~= args[hi - 1] + seq![0u8] + strings_range(args, lo, hi - 1));
        assert(strings_range(args, lo - 1, hi) =~= strings_range(args, lo, hi) + args[lo - 1] + seq![0u8]);
    }
}

proof fn lemma_strings_len_mono(args: Seq<Seq<u8>>, a: int, b: int)
    requires
        0 <= a <= b,
    ensures
        strings_len(args, a) <= strings_len(args, b),
    decreases b - a,
{
    if a < b {
        lemma_strings_len_mono(args, a, b - 1);
    }
}

pub proof fn lemma_le_bytes_len(x: nat, k: nat)
    ensures
        le_bytes(x, k).len() == k,
    decreases k,
{
    if k > 0 {
        lemma_le_bytes_len(x / 256, (k - 1) as nat);
    }
}

proof fn lemma_strings_range_len(args: Seq<Seq<u8>>, hi: int)
    requires
        0 <= hi,
    ensures
        strings_range(args, 0, hi).len() == strings_len(args, hi),
    decreases hi,
{
    if hi > 0 {
        lemma_strings_range_len(args, hi - 1);
    }
}

proof fn lemma_pointers_len(top: int, args: Seq<Seq<u8>>, k: int)
    requires
        0 <= k,
    ensures
        pointers(top, args, k).len() == WORD * k,
    decreases k,
{
    if k > 0 {
        lemma_pointers_len(top, args, k - 1);
        lemma_le_bytes_len(str_addr(top, args, k - 1) as nat, WORD as nat);
    }
}

/// The image spans from the stack pointer to the stack top.
pub proof fn lemma_stack_image_len(top: int, args: Seq<Seq<u8>>)
    ensures
        stack_image(top, args).len() == top - sp_of(top, args),
{
    lemma_strings_range_len(args, args.len() as int);
    lemma_pointers_len(top, args, args.len() as int);
    lemma_le_bytes_len(0, WORD as nat);
}

/// The little-endian word of `x`.
fn push_word(out: &mut Vec<u8>, x: usize)
    ensures
        final(out)@ == old(out)@ + word(x as nat),
{
    let mut v: usize = x;
    let mut k: usize = 0;
    let ghost start = out@;
    while k < WORD
        invariant
            k <= WORD,
            start + le_bytes(x as nat, WORD as nat) == out@ + le_bytes(v as nat, (WORD - k) as nat),
        decreases WORD - k,
    {
        proof {
            assert(le_bytes(v as nat, (WORD - k) as nat) =~= seq![(v % 256) as u8] + le_bytes(
                (v / 256) as nat,
                (WORD - k - 1) as nat,
            ));
        }
        out.push((v % 256) as u8);
        v = v / 256;
        k = k + 1;
        proof {
            assert(out@ + le_bytes(v as nat, (WORD - k) as nat) =~= start + le_bytes(x as nat, WORD as nat));
        }
    }
    proof {
        assert(le_bytes(v as nat, 0) =~= Seq::<u8>::empty());
        assert(out@ =~= start + word(x as nat));
    }
}

/// Lays the arguments out below the stack top `top`, using at most `room`
/// bytes. None when they need more room than that.
pub fn build_argv(top: usize, room: usize, args: &Vec<Vec<u8>>) -> (r: Option<ArgvImage>)
    requires
        room <= top,
    ensures
        r is None <==> top - sp_of(top as int, arg_seqs(args@)) > room,
        r matches Some(img) ==> {
            &&& img.sp == sp_of(top as int, arg_seqs(args@))
            &&& img.argv_base == argv_base_of(top as int, arg_seqs(args@))
            &&& img.bytes@ == stack_image(top as int, arg_seqs(args@))
            &&& img.bytes@.len() == top - img.sp
            &&& img.sp % WORD == 0
        },
{
    let ghost a = arg_seqs(args@);
    let n = args.len();
    if n >= room / WORD {
        proof {
            lemma_strings_len_mono(a, 0, n as int);
        }
        return None;
    }
    let table = WORD * (n + 1);
    // bytes needed so far: the pointer table and the first `i` strings
    let mut total: usize = table;
    let mut i: usize = 0;
    while i < n
        invariant
            n == args@.len(),
            a == arg_seqs(args@),
            i <= n,
            table == WORD * (n + 1),
            total == table + strings_len(a, i as int),
            total <= room,
            room <= top,
        decreases n - i,
    {
        let len = args[i].len();
        if len >= room - total {
            proof {
                lemma_strings_len_mono(a, i as int + 1, n as int);
                assert(a[i as int].len() == len);
            }
            return None;
        }
        total = total + len + 1;
        i = i + 1;
    }
    let low = top - total;
    let pad = low % WORD;
    if pad > room - total {
        return None;
    }
    let argv_base = top - table;
    let sp = low - pad;
    let mut bytes: Vec<u8> = Vec::new();
    let mut p: usize = 0;
    while p < pad
        invariant
            p <= pad,
            bytes@ == Seq::new(p as nat, |x: int| 0u8),
        decreases pad - p,
    {
        bytes.push(0);
        p = p + 1;
        proof {
            assert(bytes@ =~= Seq::new(p as nat, |x: int| 0u8));
        }
    }
    let ghost padding = bytes@;
    let mut k: usize = n;
    proof {
        assert(strings_range(a, n as int, n as int) =~= Seq::<u8>::empty());
        assert(bytes@ =~= padding + strings_range(a, n as int, n as int));
    }
    while k > 0
        invariant
            n == args@.len(),
            a == arg_seqs(args@),
            k <= n,
            bytes@ == padding + strings_range(a, k as int, n as int),
        decreases k,
    {
        let s = &args[k - 1];
        assert(s@ == a[k - 1]);
        let ghost before = bytes@;
        let mut j: usize = 0;
        while j < s.len()
            invariant
                j <= s@.len(),
                bytes@ == before + s@.take(j as int),
            decreases s@.len() - j,
        {
            bytes.push(s[j]);
            j = j + 1;
            proof {
                assert(bytes@ =~= before + s@.take(j as int));
            }
        }
        bytes.push(0);
        proof {
            lemma_strings_range_grow(a, k as int, n as int);
            assert(s@.take(s@.len() as int) =~= s@);
            assert(bytes@ =~= padding + strings_range(a, k - 1, n as int));
        }
        k = k - 1;
    }
    let ghost strings = bytes@;
    // pointers to the strings, from the first argument up
    let mut addr: usize = argv_base;
    let mut q: usize = 0;
    proof {
        assert(pointers(top as int, a, 0) =~= Seq::<u8>::empty());
        lemma_strings_len_mono(a, 0, n as int);
        assert(bytes@ =~= strings + pointers(top as int, a, 0));
    }
    while q < n
        invariant
            n == args@.len(),
            a == arg_seqs(args@),
            q <= n,
            argv_base == argv_base_of(top as int, a),
            addr == argv_base - strings_len(a, q as int),
            low == argv_base - strings_len(a, n as int),
            low <= addr,
            bytes@ == strings + pointers(top as int, a, q as int),
        decreases n - q,
    {
        proof {
            lemma_strings_len_mono(a, q as int + 1, n as int);
        }
        assert(args@[q as int]@ == a[q as int]);
        addr = addr - (args[q].len() + 1);
        push_word(&mut bytes, addr);
        q = q + 1;
    }
    push_word(&mut bytes, 0);
    proof {
        assert(padding =~= Seq::new((strings_low(top as int, a) - sp_of(top as int, a)) as nat, |x: int| 0u8));
        assert(bytes@ =~= stack_image(top as int, a));
        lemma_stack_image_len(top as int, a);
    }
    Some(ArgvImage { sp, argv_base, bytes })
}

} // verus!
