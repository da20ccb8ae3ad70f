use vstd::prelude::*;
use vstd::endian::{Endian, endianness};

verus! {

/// Size of a virtual memory page.
pub const PAGE_SIZE: usize = 0x1000;

/// The time as user programs receive it: seconds and microseconds.
pub struct TimeVal {
    pub sec: usize,
    pub usec: usize,
}

/// The bytes of `x`, least significant first.
pub open spec fn le_bytes(x: u64) -> Seq<u8> {
    seq![
        x as u8,
        (x >> 8u64) as u8,
        (x >> 16u64) as u8,
        (x >> 24u64) as u8,
        (x >> 32u64) as u8,
        (x >> 40u64) as u8,
        (x >> 48u64) as u8,
        (x >> 56u64) as u8,
    ]
}

/// The bytes of `x` in the byte order of the machine.
pub open spec fn ne_bytes(x: u64) -> Seq<u8> {
    match endianness() {
        Endian::Little => le_bytes(x),
        Endian::Big => le_bytes(x).reverse(),
    }
}

/// The memory image of a `TimeVal`: its two fields as 64-bit words in the
/// byte order of the machine.
pub open spec fn timeval_bytes(tv: TimeVal) -> Seq<u8> {
    ne_bytes(tv.sec as u64) + ne_bytes(tv.usec as u64)
}

/// The time `us` (in microseconds) split into seconds and microseconds.
pub open spec fn timeval_of_us(us: usize) -> TimeVal {
    TimeVal { sec: us / 1_000_000, usec: us % 1_000_000 }
}

/// Where buffer `i` starts in the concatenation of `bufs`.
pub open spec fn offset(bufs: Seq<Vec<u8>>, i: int) -> int
    decreases i,
{
    if i <= 0 {
        0
    } else {
        offset(bufs, i - 1) + bufs[i - 1]@.len()
    }
}

/// `u64::to_ne_bytes`: the memory representation of `x` as a byte array in
/// the byte order of the machine (little-endian on a little-endian machine,
/// big-endian on a big-endian one).
#[verifier::external_body]
fn u64_to_ne_bytes(x: u64) -> (r: [u8; 8])
    ensures
        r@ == ne_bytes(x),
{
    x.to_ne_bytes()
}

/// get time with second and microsecond
///
/// `us` is the current time in microseconds, and `buffers` are the pieces
/// of user memory, page by page, that hold the caller's `TimeVal`. Byte
/// after byte, the pieces receive the memory image of the time, until the
/// image or the pieces run out.
pub fn sys_get_time(us: usize, buffers: &mut Vec<Vec<u8>>) -> (r: isize)
    ensures
        r == 0,
        final(buffers).len() == old(buffers).len(),
        forall|i: int|
            0 <= i < old(buffers).len() ==> #[trigger] final(buffers)@[i]@.len()
                == old(buffers)@[i]@.len(),
        forall|i: int, j: int|
            0 <= i < old(buffers).len() && 0 <= j < old(buffers)@[i]@.len()
                ==> #[trigger] final(buffers)@[i]@[j] == if offset(old(buffers)@, i) + j < 16 {
                timeval_bytes(timeval_of_us(us))[offset(old(buffers)@, i) + j]
            } else {
                old(buffers)@[i]@[j]
            },
{
    let ghost bufs0 = buffers@;
    let sec = us / 1_000_000;
    let usec = us % 1_000_000;
    let sec_bytes = u64_to_ne_bytes(sec as u64);
    let usec_bytes = u64_to_ne_bytes(usec as u64);
    let mut kernel_bytes: Vec<u8> = Vec::new();
    let mut k: usize = 0;
    while k < 8
        invariant
            k <= 8,
            kernel_bytes.len() == k,
            forall|x: int| 0 <= x < k ==> kernel_bytes@[x] == sec_bytes@[x],
        decreases 8 - k,
    {
        kernel_bytes.push(sec_bytes[k]);
        k = k + 1;
    }
    let mut k: usize = 0;
    while k < 8
        invariant
            k <= 8,
            kernel_bytes.len() == 8 + k,
            forall|x: int| 0 <= x < 8 ==> kernel_bytes@[x] == sec_bytes@[x],
            forall|x: int| 0 <= x < k ==> kernel_bytes@[8 + x] == usec_bytes@[x],
        decreases 8 - k,
    {
        kernel_bytes.push(usec_bytes[k]);
        k = k + 1;
    }
    assert(kernel_bytes@ =~= timeval_bytes(timeval_of_us(us)));
    let ghost image = kernel_bytes@;
    // position of the next byte of the image to write
    let mut next: usize = 0;
    let mut i: usize = 0;
    while i < buffers.len()
        invariant
            image.len() == 16,
            kernel_bytes@ == image,
            image == timeval_bytes(timeval_of_us(us)),
            buffers.len() == bufs0.len(),
            i <= buffers.len(),
            next as int == if offset(bufs0, i as int) < 16 {
                offset(bufs0, i as int)
            } else {
                16
            },
            forall|b: int| 0 <= b < bufs0.len() ==> #[trigger] buffers@[b]@.len() == bufs0[b]@.len(),
            forall|b: int, j: int|
                0 <= b < i && 0 <= j < bufs0[b]@.len() ==> #[trigger] buffers@[b]@[j] == if offset(
                    bufs0,
                    b,
                ) + j < 16 {
                    image[offset(bufs0, b) + j]
                } else {
                    bufs0[b]@[j]
                },
            forall|b: int| i <= b < bufs0.len() ==> #[trigger] buffers@[b] == bufs0[b],
        decreases buffers.len() - i,
    {
        let mut j: usize = 0;
        let len = buffers[i].len();
        while j < len && next < 16
            invariant
                image.len() == 16,
                kernel_bytes@ == image,
                buffers.len() == bufs0.len(),
                i < buffers.len(),
                len == bufs0[i as int]@.len(),
                j <= len,
                next as int == if offset(bufs0, i as int) + j < 16 {
                    offset(bufs0, i as int) + j
                } else {
                    16
                },
                forall|b: int| 0 <= b < bufs0.len() ==> #[trigger] buffers@[b]@.len() == bufs0[b]@.len(),
                forall|b: int, jj: int|
                    0 <= b < i && 0 <= jj < bufs0[b]@.len() ==> #[trigger] buffers@[b]@[jj] == if offset(
                        bufs0,
                        b,
                    ) + jj < 16 {
                        image[offset(bufs0, b) + jj]
                    } else {
                        bufs0[b]@[jj]
                    },
                forall|jj: int|
                    0 <= jj < j ==> #[trigger] buffers@[i as int]@[jj] == if offset(bufs0, i as int) + jj
                        < 16 {
                        image[offset(bufs0, i as int) + jj]
                    } else {
                        bufs0[i as int]@[jj]
                    },
                forall|jj: int| j <= jj < len ==> #[trigger] buffers@[i as int]@[jj] == bufs0[i as int]@[jj],
                forall|b: int| i < b < bufs0.len() ==> #[trigger] buffers@[b] == bufs0[b],
            decreases len - j,
        {
            let byte = kernel_bytes[next];
            let ghost before = buffers@;
            buffers[i].set(j, byte);
            assert(forall|b: int| 0 <= b < before.len() && b != i ==> buffers@[b] == before[b]);
            assert(buffers@[i as int]@ == before[i as int]@.update(j as int, byte));
            assert(byte == image[offset(bufs0, i as int) + j]);
            next = next + 1;
            j = j + 1;
        }
        proof {
            assert(offset(bufs0, i + 1) == offset(bufs0, i as int) + bufs0[i as int]@.len());
        }
        i = i + 1;
    }
    0
}

/// `start` is page aligned and `port` asks for some of read, write and
/// execute access and for nothing else.
pub open spec fn mmap_args_valid(start: usize, port: usize) -> bool {
    start % PAGE_SIZE == 0 && 1 <= port <= 7
}

/// map a memory region in user space, and return 0 if success.
///
/// `mmap_current` maps the region in the address space of the current task.
pub fn sys_mmap<F: FnOnce(usize, usize, usize) -> isize>(
    start: usize,
    len: usize,
    port: usize,
    mmap_current: F,
) -> (r: isize)
    requires
        mmap_args_valid(start, port) ==> call_requires(mmap_current, (start, len, port)),
    ensures
        if mmap_args_valid(start, port) {
            call_ensures(mmap_current, (start, len, port), r)
        } else {
            r == -1
        },
        start % PAGE_SIZE != 0 ==> r == -1,
        !(1 <= port <= 7) ==> r == -1,
{
    if start % PAGE_SIZE != 0 {
        return -1;
    }
    if port & !0x7 != 0 || port & 0x7 == 0 {
        assert(port & !0x7usize != 0 || port & 0x7usize == 0 <==> !(1 <= port <= 7)) by (bit_vector);
        return -1;
    }
    assert(port & !0x7usize == 0 && port & 0x7usize != 0 ==> 1 <= port <= 7) by (bit_vector);
    mmap_current(start, len, port)
}

/// unmap a memory region in user space, and return 0 if success.
///
/// `munmap_current` unmaps the region from the address space of the current task.
pub fn sys_munmap<F: FnOnce(usize, usize) -> isize>(start: usize, len: usize, munmap_current: F) -> (r: isize)
    requires
        start % PAGE_SIZE == 0 ==> call_requires(munmap_current, (start, len)),
    ensures
        if start % PAGE_SIZE == 0 {
            call_ensures(munmap_current, (start, len), r)
        } else {
            r == -1
        },
{
    if start % PAGE_SIZE != 0 {
        return -1;
    }
    munmap_current(start, len)
}

/// change data segment size
///
/// `change_program_brk` moves the program break of the current task by
/// `size` bytes and gives back the old break, or `None` when it cannot.
pub fn sys_sbrk<F: FnOnce(i32) -> Option<usize>>(size: i32, change_program_brk: F) -> (r: isize)
    requires
        call_requires(change_program_brk, (size,)),
    ensures
        exists|res: Option<usize>|
            call_ensures(change_program_brk, (size,), res) && r == match res {
                Some(old_brk) => old_brk as isize,
                None => -1isize,
            },
{
    if let Some(old_brk) = change_program_brk(size) {
        old_brk as isize
    } else {
        -1
    }
}

/// The flags of a page-table entry that the trace syscall looks at.
pub struct PteFlags {
    pub valid: bool,
    pub readable: bool,
    pub writable: bool,
    pub user: bool,
}

/// The page holding the address is mapped, valid, and readable from user mode.
pub open spec fn user_readable(pte: Option<PteFlags>) -> bool {
    match pte {
        Some(f) => f.valid && f.readable && f.user,
        None => false,
    }
}

/// The page holding the address is mapped, valid, and writable from user mode.
pub open spec fn user_writable(pte: Option<PteFlags>) -> bool {
    match pte {
        Some(f) => f.valid && f.writable && f.user,
        None => false,
    }
}

/// Trace current task's system call counter, and do corresponding modifications.
///
/// - `trace_request == 0`: read the byte of user memory at address `id`, if
///   the page holding it is valid, readable and user-accessible, and return it;
/// - `trace_request == 1`: write `data` (its low byte) to the byte of user
///   memory at address `id`, if the page holding it is valid, writable and
///   user-accessible, and return 0;
/// - `trace_request == 2`: return how many times the current task has made
///   syscall `id`, this call included;
/// - otherwise, or when the page does not allow the access: return -1.
///
/// `translate` looks up the page-table entry of the page holding a user
/// address in the current address space; `read_byte` and `write_byte`
/// access the user byte at an address whose page allows it; `syscall_count`
/// gives the current task's count for a syscall id.
pub fn sys_trace<
    T: FnOnce(usize) -> Option<PteFlags>,
    R: FnOnce(usize) -> u8,
    W: FnOnce(usize, u8),
    C: FnOnce(usize) -> usize,
>(
    trace_request: usize,
    id: usize,
    data: usize,
    translate: T,
    read_byte: R,
    write_byte: W,
    syscall_count: C,
) -> (r: isize)
    requires
        trace_request <= 1 ==> call_requires(translate, (id,)),
        trace_request == 0 ==> forall|f: Option<PteFlags>|
            call_ensures(translate, (id,), f) && user_readable(f) ==> call_requires(
                read_byte,
                (id,),
            ),
        trace_request == 1 ==> forall|f: Option<PteFlags>|
            call_ensures(translate, (id,), f) && user_writable(f) ==> call_requires(
                write_byte,
                (id, data as u8),
            ),
        trace_request == 2 ==> call_requires(syscall_count, (id,)),
    ensures
        trace_request == 0 ==> exists|f: Option<PteFlags>|
            call_ensures(translate, (id,), f) && if user_readable(f) {
                exists|b: u8| call_ensures(read_byte, (id,), b) && r == b as isize
            } else {
                r == -1
            },
        trace_request == 1 ==> exists|f: Option<PteFlags>|
            call_ensures(translate, (id,), f) && if user_writable(f) {
                call_ensures(write_byte, (id, data as u8), ()) && r == 0
            } else {
                r == -1
            },
        trace_request == 2 ==> exists|c: usize|
            call_ensures(syscall_count, (id,), c) && r == c as isize,
        trace_request == 0 && r != -1 ==> exists|f: Option<PteFlags>|
            call_ensures(translate, (id,), f) && (f matches Some(p) && p.valid && p.readable
                && p.user),
        trace_request == 1 && r == 0 ==> exists|f: Option<PteFlags>|
            call_ensures(translate, (id,), f) && (f matches Some(p) && p.valid && p.writable
                && p.user),
        trace_request > 2 ==> r == -1,
{
    match trace_request {
        0 => {
            let pte = translate(id);
            let ok = match &pte {
                Some(f) => f.valid && f.readable && f.user,
                None => false,
            };
            assert(ok == user_readable(pte));
            if ok {
                let b = read_byte(id);
                return b as isize;
            }
            -1
        },
        1 => {
            let pte = translate(id);
            let ok = match &pte {
                Some(f) => f.valid && f.writable && f.user,
                None => false,
            };
            assert(ok == user_writable(pte));
            let byte = data as u8;
            if ok {
                write_byte(id, byte);
                return 0;
            }
            -1
        },
        2 => {
            let count = syscall_count(id);
            count as isize
        },
        _ => -1,
    }
}

/// The number that eight bytes stand for, least significant byte first.
pub open spec fn le_value(b: Seq<u8>) -> int {
    b[0] + 0x100 * b[1] + 0x1_0000 * b[2] + 0x100_0000 * b[3] + 0x1_0000_0000 * b[4]
        + 0x100_0000_0000 * b[5] + 0x1_0000_0000_0000 * b[6] + 0x100_0000_0000_0000 * b[7]
}

/// The number that eight bytes in the byte order of the machine stand for.
pub open spec fn ne_value(b: Seq<u8>) -> int {
    match endianness() {
        Endian::Little => le_value(b),
        Endian::Big => le_value(b.reverse()),
    }
}

/// Reading back the bytes of a word in the machine's order gives the word.
pub proof fn law_ne_bytes_read_back(x: u64)
    ensures
        ne_bytes(x).len() == 8,
        ne_value(ne_bytes(x)) == x,
{
    let b = le_bytes(x);
    assert(b[0] == x as u8 && b[1] == (x >> 8u64) as u8 && b[2] == (x >> 16u64) as u8 && b[3]
        == (x >> 24u64) as u8 && b[4] == (x >> 32u64) as u8 && b[5] == (x >> 40u64) as u8 && b[6]
        == (x >> 48u64) as u8 && b[7] == (x >> 56u64) as u8);
    assert((x as u8) as int + 0x100 * ((x >> 8u64) as u8) as int + 0x1_0000 * ((x >> 16u64) as u8) as int
        + 0x100_0000 * ((x >> 24u64) as u8) as int + 0x1_0000_0000 * ((x >> 32u64) as u8) as int
        + 0x100_0000_0000 * ((x >> 40u64) as u8) as int + 0x1_0000_0000_0000 * ((x >> 48u64) as u8) as int
        + 0x100_0000_0000_0000 * ((x >> 56u64) as u8) as int == x as int) by (bit_vector);
    assert(b.reverse().reverse() =~= b);
    assert(le_value(b) == x);
}

/// The time that `sys_get_time` writes is the clock split exactly: whole
/// seconds, and the microseconds left over, fewer than a million.
pub proof fn law_timeval_of_us_splits_exactly(us: usize)
    ensures
        timeval_of_us(us).sec * 1_000_000 + timeval_of_us(us).usec == us,
        timeval_of_us(us).usec < 1_000_000,
{
}

/// The bytes that `sys_get_time` writes read back, in the machine's byte
/// order, as two words: seconds and microseconds, which together give the
/// clock `us` exactly, with fewer than a million microseconds.
pub proof fn law_get_time_image_reads_back(us: usize)
    ensures
        timeval_bytes(timeval_of_us(us)).len() == 16,
        ne_value(timeval_bytes(timeval_of_us(us)).subrange(0, 8)) * 1_000_000 + ne_value(
            timeval_bytes(timeval_of_us(us)).subrange(8, 16),
        ) == us,
        ne_value(timeval_bytes(timeval_of_us(us)).subrange(8, 16)) < 1_000_000,
{
    let tv = timeval_of_us(us);
    law_ne_bytes_read_back(tv.sec as u64);
    law_ne_bytes_read_back(tv.usec as u64);
    let b = timeval_bytes(tv);
    assert(b.subrange(0, 8) =~= ne_bytes(tv.sec as u64));
    assert(b.subrange(8, 16) =~= ne_bytes(tv.usec as u64));
    assert(tv.sec * 1_000_000 + tv.usec == us);
}

/// The trace syscall writes only to a page that is mapped, valid, writable
/// and accessible from user mode.
pub proof fn law_trace_write_needs_user_writable_page(pte: Option<PteFlags>)
    ensures
        user_writable(pte) ==> (pte matches Some(f) && f.valid && f.writable && f.user),
        (pte matches Some(f) && f.valid && f.writable && f.user) ==> user_writable(pte),
{
}

/// The trace syscall reads only from a page that is mapped, valid, readable
/// and accessible from user mode.
pub proof fn law_trace_read_needs_user_readable_page(pte: Option<PteFlags>)
    ensures
        user_readable(pte) ==> (pte matches Some(f) && f.valid && f.readable && f.user),
        (pte matches Some(f) && f.valid && f.readable && f.user) ==> user_readable(pte),
{
}

/// `sys_mmap` lets a request through exactly when its start is a multiple of
/// 4096 and its protection bits ask for some of read, write and execute
/// access and for nothing else.
pub proof fn law_mmap_accepts_exactly_aligned_requests(start: usize, port: usize)
    ensures
        mmap_args_valid(start, port) <==> (start % 4096 == 0 && port & !0x7usize == 0 && port
            & 0x7usize != 0),
{
    assert(port & !0x7usize == 0 && port & 0x7usize != 0 <==> 1 <= port <= 7) by (bit_vector);
}

/// `sys_munmap` lets a request through exactly when its start is a multiple of 4096.
pub proof fn law_munmap_accepts_exactly_aligned_starts(start: usize)
    ensures
        start % PAGE_SIZE == 0 <==> start % 4096 == 0,
{
}

} // verus!
