//! The chunked split/merge streaming engine: byte-exact accounting for
//! splitting a file into fragments and concatenating fragments back.
//!
//! The engine itself owns no file handle. The split side is a machine fed
//! with read chunks; each step says how many bytes go to the open fragment
//! and when to close it and open the next, so that one chunk may straddle
//! two fragments without a byte lost or written twice. The merge side
//! decides which fragment path to probe next and stops at the first gap.

use vstd::prelude::*;
use vstd::math::min;
use vstd::arithmetic::div_mod::{lemma_fundamental_div_mod_converse_div, lemma_fundamental_div_mod_converse_mod};
use vstd::arithmetic::mul::lemma_mul_inequality;
use crate::cli::view_opt_string;
use crate::names::{file_name, fragment_path, fragment_path_spec};
use crate::plan::{ceil_div, lemma_ceil_div_bounds};

verus! {

/// Greatest number of bytes one read moves.
pub const MAX_BUFFER_SIZE: usize = 1048576;

/// How many fragments a file of `len` bytes yields at `fragment_size`.
pub open spec fn fragment_count(len: nat, fragment_size: nat) -> nat
    recommends
        fragment_size > 0,
{
    ceil_div(len, fragment_size)
}

/// The bytes of fragment `index` (1-based): the `index`th run of
/// `fragment_size` bytes of the file, the last run ending at the file's
/// end.
pub open spec fn fragment_of(file: Seq<u8>, fragment_size: nat, index: nat) -> Seq<u8>
    recommends
        fragment_size > 0,
        1 <= index <= fragment_count(file.len(), fragment_size),
{
    let start = (index - 1) * fragment_size as int;
    let end = min(index * fragment_size as int, file.len() as int);
    file.subrange(start, end)
}

/// The first `n` fragments, concatenated in order.
pub open spec fn concat_fragments(file: Seq<u8>, fragment_size: nat, n: nat) -> Seq<u8>
    decreases n,
{
    if n == 0 {
        Seq::empty()
    } else {
        concat_fragments(file, fragment_size, (n - 1) as nat) + fragment_of(file, fragment_size, n)
    }
}

/// A sequence of byte runs, concatenated in order.
pub open spec fn seq_concat(frags: Seq<Seq<u8>>) -> Seq<u8>
    decreases frags.len(),
{
    if frags.len() == 0 {
        Seq::empty()
    } else {
        seq_concat(frags.drop_last()) + frags.last()
    }
}

/// The views of a list of byte vectors.
pub open spec fn frag_views(frags: Seq<Vec<u8>>) -> Seq<Seq<u8>> {
    Seq::new(frags.len(), |i: int| frags[i]@)
}

proof fn lemma_concat_fragments_prefix(file: Seq<u8>, fragment_size: nat, n: nat)
    requires
        fragment_size > 0,
        n <= fragment_count(file.len(), fragment_size),
    ensures
        concat_fragments(file, fragment_size, n) == file.take(
            min(n * fragment_size as int, file.len() as int),
        ),
    decreases n,
{
    if n == 0 {
        assert(concat_fragments(file, fragment_size, 0) =~= file.take(0));
    } else {
        lemma_concat_fragments_prefix(file, fragment_size, (n - 1) as nat);
        lemma_ceil_div_bounds(file.len(), fragment_size);
        lemma_mul_inequality(
            n as int - 1,
            fragment_count(file.len(), fragment_size) as int - 1,
            fragment_size as int,
        );
        assert((n - 1) * (fragment_size as int) < file.len() as int);
        assert(n * fragment_size as int == (n - 1) * fragment_size as int + fragment_size)
            by (nonlinear_arith);
        assert(concat_fragments(file, fragment_size, n) =~= file.take(
            min(n * fragment_size as int, file.len() as int),
        ));
    }
}

/// Law: a split merges back to the file. The fragments of a file at any
/// fragment size, concatenated in increasing index order, are exactly the
/// original byte sequence.
pub proof fn lemma_round_trip(file: Seq<u8>, fragment_size: nat)
    requires
        fragment_size >= 1,
    ensures
        concat_fragments(file, fragment_size, fragment_count(file.len(), fragment_size)) == file,
{
    let count = fragment_count(file.len(), fragment_size);
    lemma_ceil_div_bounds(file.len(), fragment_size);
    lemma_concat_fragments_prefix(file, fragment_size, count);
    assert(file.take(file.len() as int) =~= file);
}

proof fn lemma_seq_concat_matches(file: Seq<u8>, fragment_size: nat, frags: Seq<Seq<u8>>, k: int)
    requires
        fragment_size >= 1,
        0 <= k <= frags.len(),
        frags.len() == fragment_count(file.len(), fragment_size),
        forall|i: int| 0 <= i < frags.len() ==> frags[i] == fragment_of(
            file,
            fragment_size,
            (i + 1) as nat,
        ),
    ensures
        seq_concat(frags.take(k)) == concat_fragments(file, fragment_size, k as nat),
    decreases k,
{
    if k == 0 {
        assert(frags.take(0) =~= Seq::<Seq<u8>>::empty());
    } else {
        lemma_seq_concat_matches(file, fragment_size, frags, k - 1);
        assert(frags.take(k).drop_last() =~= frags.take(k - 1));
        assert(frags.take(k).last() == frags[k - 1]);
    }
}

/// Law: any list of byte runs that are exactly the fragments of a file,
/// complete and in order, concatenates back to the file.
pub proof fn lemma_merge_of_split(file: Seq<u8>, fragment_size: nat, frags: Seq<Seq<u8>>)
    requires
        fragment_size >= 1,
        frags.len() == fragment_count(file.len(), fragment_size),
        forall|i: int| 0 <= i < frags.len() ==> frags[i] == fragment_of(
            file,
            fragment_size,
            (i + 1) as nat,
        ),
    ensures
        seq_concat(frags) == file,
{
    lemma_seq_concat_matches(file, fragment_size, frags, frags.len() as int);
    assert(frags.take(frags.len() as int) =~= frags);
    lemma_round_trip(file, fragment_size);
}

/// The streaming split engine's bookkeeping: how much of the input is
/// consumed, which fragment is open, and how full it is. The caller reads
/// chunks, feeds each to `consume_chunk`, and performs the writes the
/// returned step dictates.
pub struct SplitMachine {
    pub fragment_size: usize,
    pub file_size: usize,
    pub consumed: usize,
    pub fragment_number: usize,
    pub fragment_fill: usize,
}

/// What the caller must do with the chunk just consumed: write its first
/// `take` bytes to the open fragment; if `close_current`, that filled the
/// fragment, so flush and close it; if `open_next`, open the following
/// fragment and write the chunk's remaining bytes into it.
pub struct ChunkStep {
    pub take: usize,
    pub close_current: bool,
    pub open_next: bool,
}

impl SplitMachine {
    /// The bookkeeping is coherent: the bytes consumed are the closed full
    /// fragments plus the fill of the open one, and the open fragment
    /// stands exactly full only once the whole input is consumed.
    pub open spec fn wf(self) -> bool {
        &&& self.fragment_size >= 1
        &&& self.fragment_number >= 1
        &&& self.consumed <= self.file_size
        &&& self.fragment_fill <= self.fragment_size
        &&& self.consumed as int == (self.fragment_number - 1) * self.fragment_size as int
            + self.fragment_fill
        &&& (self.fragment_fill == self.fragment_size ==> self.consumed == self.file_size)
    }

    /// The whole input has been consumed.
    pub open spec fn done(self) -> bool {
        self.consumed == self.file_size
    }

    pub fn new(fragment_size: usize, file_size: usize) -> (m: SplitMachine)
        requires
            fragment_size >= 1,
        ensures
            m.wf(),
            m == (SplitMachine {
                fragment_size,
                file_size,
                consumed: 0,
                fragment_number: 1,
                fragment_fill: 0,
            }),
    {
        SplitMachine { fragment_size, file_size, consumed: 0, fragment_number: 1, fragment_fill: 0 }
    }

    /// Consumes one read chunk. The step returned keeps every byte exactly
    /// once: `take` bytes fill the open fragment, and when the fragment
    /// closes with input still ahead, the remaining `chunk_len - take`
    /// bytes open the next fragment.
    pub fn consume_chunk(&mut self, chunk_len: usize) -> (step: ChunkStep)
        requires
            old(self).wf(),
            !old(self).done(),
            1 <= chunk_len <= old(self).fragment_size,
            old(self).consumed + chunk_len <= old(self).file_size,
        ensures
            final(self).wf(),
            final(self).fragment_size == old(self).fragment_size,
            final(self).file_size == old(self).file_size,
            final(self).consumed == old(self).consumed + chunk_len,
            step.take as int == min(
                chunk_len as int,
                old(self).fragment_size - old(self).fragment_fill,
            ),
            step.close_current == (old(self).fragment_fill + step.take == old(self).fragment_size),
            step.open_next == (step.close_current && (old(self).consumed + chunk_len
                < old(self).file_size || step.take < chunk_len)),
            !step.close_current ==> final(self).fragment_number == old(self).fragment_number
                && final(self).fragment_fill == old(self).fragment_fill + chunk_len,
            step.close_current && step.open_next ==> final(self).fragment_number == old(self).fragment_number + 1
                && final(self).fragment_fill == chunk_len - step.take,
            step.close_current && !step.open_next ==> final(self).fragment_number == old(self).fragment_number
                && final(self).fragment_fill == final(self).fragment_size
                && final(self).done(),
    {
        let ghost pre = *self;
        proof {
            assert(old(self).fragment_fill < old(self).fragment_size);
        }
        let space = self.fragment_size - self.fragment_fill;
        let take = if chunk_len < space {
            chunk_len
        } else {
            space
        };
        self.consumed = self.consumed + chunk_len;
        if take == space {
            if self.consumed < self.file_size || take < chunk_len {
                proof {
                    assert(self.consumed as int == self.fragment_number as int
                        * (self.fragment_size as int) + (chunk_len - take)) by (nonlinear_arith)
                        requires
                            pre.consumed as int == (pre.fragment_number - 1)
                                * (pre.fragment_size as int) + pre.fragment_fill,
                            self.fragment_number == pre.fragment_number,
                            self.fragment_size == pre.fragment_size,
                            self.consumed == pre.consumed + chunk_len,
                            pre.fragment_fill + take == pre.fragment_size,
                            take <= chunk_len,
                    ;
                    assert(self.fragment_number as int <= self.fragment_number as int
                        * (self.fragment_size as int)) by (nonlinear_arith)
                        requires
                            self.fragment_size >= 1,
                            self.fragment_number >= 1,
                    ;
                    assert(self.fragment_number < usize::MAX);
                }
                self.fragment_number = self.fragment_number + 1;
                self.fragment_fill = chunk_len - take;
                proof {
                    assert((self.fragment_number - 1) * (self.fragment_size as int)
                        == (pre.fragment_number - 1) * (pre.fragment_size as int)
                        + pre.fragment_size) by (nonlinear_arith)
                        requires
                            self.fragment_number == pre.fragment_number + 1,
                            self.fragment_size == pre.fragment_size,
                    ;
                }
                ChunkStep { take, close_current: true, open_next: true }
            } else {
                self.fragment_fill = self.fragment_size;
                ChunkStep { take, close_current: true, open_next: false }
            }
        } else {
            self.fragment_fill = self.fragment_fill + take;
            ChunkStep { take, close_current: false, open_next: false }
        }
    }
}

fn append_range(dst: &mut Vec<u8>, src: &Vec<u8>, start: usize, end: usize)
    requires
        start <= end <= src@.len(),
    ensures
        final(dst)@ == old(dst)@ + src@.subrange(start as int, end as int),
{
    proof {
        assert(old(dst)@ + src@.subrange(start as int, start as int) =~= old(dst)@);
    }
    let mut k = start;
    while k < end
        invariant
            start <= k <= end <= src@.len(),
            dst@ == old(dst)@ + src@.subrange(start as int, k as int),
        decreases end - k,
    {
        let b = src[k];
        dst.push(b);
        proof {
            assert(old(dst)@ + src@.subrange(start as int, k + 1) =~= (old(dst)@ + src@.subrange(
                start as int,
                k as int,
            )).push(src@[k as int]));
        }
        k += 1;
    }
}

/// Splits a byte run into its fragments, driving the same machine the
/// file-streaming caller drives, in bounded chunks: the result holds
/// `fragment_count` pieces, each one `fragment_of` the input.
pub fn split_bytes(data: &Vec<u8>, fragment_size: usize) -> (frags: Vec<Vec<u8>>)
    requires
        fragment_size >= 1,
    ensures
        frags@.len() == fragment_count(data@.len(), fragment_size as nat),
        forall|i: int| 0 <= i < frags@.len() ==> frags@[i]@ == fragment_of(
            data@,
            fragment_size as nat,
            (i + 1) as nat,
        ),
{
    let mut frags: Vec<Vec<u8>> = Vec::new();
    let mut current: Vec<u8> = Vec::new();
    let mut machine = SplitMachine::new(fragment_size, data.len());
    let mut pos: usize = 0;
    while pos < data.len()
        invariant
            machine.wf(),
            machine.fragment_size == fragment_size,
            machine.file_size == data@.len(),
            machine.consumed == pos,
            frags@.len() as int == if machine.fragment_fill == fragment_size {
                machine.fragment_number as int
            } else {
                machine.fragment_number - 1
            },
            forall|i: int| 0 <= i < frags@.len() ==> frags@[i]@ == fragment_of(
                data@,
                fragment_size as nat,
                (i + 1) as nat,
            ),
            machine.fragment_fill < fragment_size ==> current@ == data@.subrange(
                (machine.fragment_number - 1) * fragment_size as int,
                pos as int,
            ),
            machine.fragment_fill == fragment_size ==> current@ == Seq::<u8>::empty(),
        decreases data@.len() - pos,
    {
        let remaining = data.len() - pos;
        let capped = if remaining < MAX_BUFFER_SIZE {
            remaining
        } else {
            MAX_BUFFER_SIZE
        };
        let chunk_len = if capped < fragment_size {
            capped
        } else {
            fragment_size
        };
        let ghost old_machine = machine;
        let step = machine.consume_chunk(chunk_len);
        append_range(&mut current, data, pos, pos + step.take);
        if step.close_current {
            proof {
                assert(pos + step.take == old_machine.fragment_number as int
                    * fragment_size as int) by (nonlinear_arith)
                    requires
                        old_machine.consumed as int == (old_machine.fragment_number - 1)
                            * old_machine.fragment_size as int + old_machine.fragment_fill,
                        old_machine.fragment_fill + step.take == old_machine.fragment_size,
                        old_machine.fragment_size == fragment_size,
                        pos == old_machine.consumed,
                ;
                assert(current@ =~= data@.subrange(
                    (old_machine.fragment_number - 1) * fragment_size as int,
                    pos + step.take,
                ));
                assert(current@ =~= fragment_of(
                    data@,
                    fragment_size as nat,
                    old_machine.fragment_number as nat,
                ));
            }
            frags.push(current);
            current = Vec::new();
            if step.open_next {
                append_range(&mut current, data, pos + step.take, pos + chunk_len);
                proof {
                    assert(current@ =~= data@.subrange(pos + step.take, pos + chunk_len));
                }
            }
        }
        pos = pos + chunk_len;
    }
    proof {
        let count = fragment_count(data@.len(), fragment_size as nat);
        assert(machine.consumed == data@.len());
        if machine.fragment_fill == fragment_size {
            assert(data@.len() as int == machine.fragment_number as int * (fragment_size as int)
                + 0) by (nonlinear_arith)
                requires
                    machine.consumed as int == (machine.fragment_number - 1)
                        * (machine.fragment_size as int) + machine.fragment_fill,
                    machine.fragment_fill == fragment_size,
                    machine.fragment_size == fragment_size,
                    machine.consumed == data@.len(),
            ;
            lemma_fundamental_div_mod_converse_div(
                data@.len() as int,
                fragment_size as int,
                machine.fragment_number as int,
                0,
            );
            lemma_fundamental_div_mod_converse_mod(
                data@.len() as int,
                fragment_size as int,
                machine.fragment_number as int,
                0,
            );
            assert(count == machine.fragment_number);
        } else {
            assert(data@.len() as int == (machine.fragment_number - 1) * (fragment_size as int)
                + machine.fragment_fill);
            if machine.fragment_fill == 0 {
                lemma_fundamental_div_mod_converse_div(
                    data@.len() as int,
                    fragment_size as int,
                    machine.fragment_number - 1,
                    0,
                );
                lemma_fundamental_div_mod_converse_mod(
                    data@.len() as int,
                    fragment_size as int,
                    machine.fragment_number - 1,
                    0,
                );
                assert(count == machine.fragment_number - 1);
            } else {
                lemma_fundamental_div_mod_converse_div(
                    data@.len() as int,
                    fragment_size as int,
                    machine.fragment_number - 1,
                    machine.fragment_fill as int,
                );
                lemma_fundamental_div_mod_converse_mod(
                    data@.len() as int,
                    fragment_size as int,
                    machine.fragment_number - 1,
                    machine.fragment_fill as int,
                );
                assert(count == machine.fragment_number);
            }
        }
    }
    if current.len() > 0 {
        proof {
            assert(machine.fragment_number as int * (fragment_size as int)
                == (machine.fragment_number - 1) * (fragment_size as int) + fragment_size)
                by (nonlinear_arith);
            assert(current@ =~= fragment_of(
                data@,
                fragment_size as nat,
                machine.fragment_number as nat,
            ));
        }
        frags.push(current);
    }
    frags
}

/// Concatenates fragment contents, in the order given, into one byte run.
pub fn merge_fragments(fragments: &Vec<Vec<u8>>) -> (out: Vec<u8>)
    ensures
        out@ == seq_concat(frag_views(fragments@)),
{
    let mut out: Vec<u8> = Vec::new();
    let mut i: usize = 0;
    proof {
        assert(frag_views(fragments@).take(0) =~= Seq::<Seq<u8>>::empty());
    }
    while i < fragments.len()
        invariant
            i <= fragments@.len(),
            out@ == seq_concat(frag_views(fragments@).take(i as int)),
        decreases fragments@.len() - i,
    {
        let frag = &fragments[i];
        let n = frag.len();
        append_range(&mut out, frag, 0, n);
        proof {
            assert(frag_views(fragments@).take(i + 1).drop_last() =~= frag_views(
                fragments@,
            ).take(i as int));
            assert(frag_views(fragments@).take(i + 1).last() == fragments@[i as int]@);
            assert(frag@.subrange(0, n as int) =~= frag@);
        }
        i += 1;
    }
    proof {
        assert(frag_views(fragments@).take(fragments@.len() as int) =~= frag_views(fragments@));
    }
    out
}

/// The merge engine's decisions: which fragment path to probe next, how
/// much has been written, and when the merge stops. The caller probes the
/// filesystem, streams each found fragment, and reports back.
pub struct MergeEngine {
    pub input_filename: String,
    pub output_directory: Option<String>,
    pub next_index: usize,
    pub finished: bool,
    pub bytes_written: usize,
}

impl MergeEngine {
    pub fn new(input_filename: String, output_directory: Option<String>) -> (m: MergeEngine)
        ensures
            m.input_filename == input_filename,
            m.output_directory == output_directory,
            m.next_index == 1,
            !m.finished,
            m.bytes_written == 0,
    {
        MergeEngine { input_filename, output_directory, next_index: 1, finished: false, bytes_written: 0 }
    }

    /// The path of the fragment to probe for next; its absence ends the
    /// merge.
    pub fn next_fragment_path(&self) -> (r: String)
        requires
            file_name(self.input_filename@).len() > 0,
            self.next_index >= 1,
        ensures
            r@ == fragment_path_spec(
                self.input_filename@,
                view_opt_string(self.output_directory),
                self.next_index as nat,
            ),
    {
        fragment_path(&self.input_filename, &self.output_directory, self.next_index)
    }

    /// The probed fragment exists and held `len` bytes, now appended to
    /// the output: move to the next index.
    pub fn fragment_found(&mut self, len: usize)
        requires
            !old(self).finished,
            old(self).bytes_written + len <= usize::MAX,
            old(self).next_index < usize::MAX,
        ensures
            final(self).next_index == old(self).next_index + 1,
            final(self).bytes_written == old(self).bytes_written + len,
            !final(self).finished,
            final(self).input_filename == old(self).input_filename,
            final(self).output_directory == old(self).output_directory,
    {
        self.next_index = self.next_index + 1;
        self.bytes_written = self.bytes_written + len;
    }

    /// The probed fragment is missing: the merge stops here, and that is
    /// an error only when not even the first fragment existed.
    pub fn fragment_missing(&mut self) -> (none_found: bool)
        requires
            !old(self).finished,
        ensures
            final(self).finished,
            none_found == (old(self).next_index == 1),
            final(self).next_index == old(self).next_index,
            final(self).bytes_written == old(self).bytes_written,
            final(self).input_filename == old(self).input_filename,
            final(self).output_directory == old(self).output_directory,
    {
        self.finished = true;
        self.next_index == 1
    }
}

} // verus!
