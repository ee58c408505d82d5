//! User processes.

use crate::thread::Manager;
use vstd::prelude::*;

verus! {

/// A user process, known by the file that holds its program.
pub struct UserProc {
    bin: usize,
}

impl View for UserProc {
    type V = usize;

    closed spec fn view(&self) -> usize {
        self.bin
    }
}

impl UserProc {
    /// The process that runs the program in file `file`.
    pub fn new(file: usize) -> (p: Self)
        ensures
            p@ == file,
    {
        Self { bin: file }
    }

    /// File that holds the program.
    pub fn bin(&self) -> (file: usize)
        ensures
            file == self@,
    {
        self.bin
    }
}

/// Exits the process of the current thread: the thread dies and the processor is given away.
pub fn exit(m: &mut Manager, _value: isize)
    requires
        old(m).wf(),
        old(m)@.running(),
    ensures
        final(m)@ == old(m)@.exited(),
        final(m).wf(),
{
    crate::thread::exit(m);
}

/// Waits for a child process. No thread has children yet, so the answer is always `Some(-1)`.
pub fn wait(_tid: isize) -> (r: Option<isize>)
    ensures
        r == Some(-1isize),
{
    Some(-1)
}

/// Address below which the first `k` argument strings lie on a stack that
/// starts at `sp`: each string takes its length and one more byte for the
/// terminating zero, and the strings are laid out downwards in order.
pub open spec fn strings_bottom(sp: int, lengths: Seq<usize>, k: int) -> int
    decreases k,
{
    if k <= 0 {
        sp
    } else {
        strings_bottom(sp, lengths, k - 1) - (lengths[k - 1] + 1)
    }
}

/// Address of the pointer table for the argument strings: below the strings,
/// at a multiple of 8, with room for one pointer of 8 bytes per string and
/// one more for the terminating null.
pub open spec fn table_base(sp: int, lengths: Seq<usize>) -> int {
    let bottom = strings_bottom(sp, lengths, lengths.len() as int);
    bottom - bottom % 8 - 8 * lengths.len() - 8
}

/// Where the arguments of a new process go on its stack.
pub struct ArgLayout {
    /// Address of each argument string, in the order of the arguments.
    pub strings: Vec<usize>,
    /// Address of the table of pointers to the strings, which is also the new stack pointer.
    pub argv_base: usize,
}

/// Lays the argument strings of the given lengths out below `sp`.
///
/// Returns `None` when the stack has no room for them.
pub fn arg_layout(sp: usize, lengths: &Vec<usize>) -> (layout: Option<ArgLayout>)
    ensures
        layout is Some <==> table_base(sp as int, lengths@) >= 0,
        layout matches Some(l) ==> {
            &&& l.argv_base == table_base(sp as int, lengths@)
            &&& l.argv_base % 8 == 0
            &&& l.strings@.len() == lengths@.len()
            &&& forall|k: int|
                0 <= k < lengths@.len() ==> #[trigger] l.strings@[k] == strings_bottom(
                    sp as int,
                    lengths@,
                    k + 1,
                )
        },
{
    let n = lengths.len();
    let mut strings: Vec<usize> = Vec::new();
    let mut index = sp;
    let mut i: usize = 0;
    while i < n
        invariant
            n == lengths@.len(),
            i <= n,
            index == strings_bottom(sp as int, lengths@, i as int),
            strings@.len() == i,
            forall|k: int|
                0 <= k < i ==> #[trigger] strings@[k] == strings_bottom(sp as int, lengths@, k + 1),
        decreases n - i,
    {
        let len = lengths[i];
        if len >= index {
            proof {
                lemma_bottom_falls(sp as int, lengths@, i + 1, n as int);
            }
            return None;
        }
        index = index - len - 1;
        strings.push(index);
        i += 1;
    }
    let aligned = index - index % 8;
    if n >= usize::MAX / 8 || aligned < 8 * n + 8 {
        return None;
    }
    Some(ArgLayout { strings: strings, argv_base: aligned - 8 * n - 8 })
}

/// The strings' bottom only falls as more strings are laid out.
proof fn lemma_bottom_falls(sp: int, lengths: Seq<usize>, k: int, n: int)
    requires
        0 <= k <= n,
    ensures
        strings_bottom(sp, lengths, n) <= strings_bottom(sp, lengths, k) - (n - k),
    decreases n - k,
{
    if k < n {
        lemma_bottom_falls(sp, lengths, k, n - 1);
    }
}

} // verus!
