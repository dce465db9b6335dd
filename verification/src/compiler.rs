//! Compiler invocation support: the runtime-system arguments chosen from
//! the machine's memory size.

use vstd::prelude::*;

use crate::textutil::strs_of;

verus! {

/// The runtime-system arguments for a machine with `total_memory_gb`
/// gigabytes of memory: allocation-area sizes on large machines, a
/// statistics flag on request, the whole list wrapped in +RTS/-RTS markers
/// only when non-empty.
pub open spec fn spec_rts_args(total_memory_gb: u64, include_stats: bool) -> Seq<Seq<char>> {
    let mem: Seq<Seq<char>> = if total_memory_gb > 31 {
        seq!["-A256m"@, "-n16m"@]
    } else if total_memory_gb > 15 {
        seq!["-A128m"@, "-n8m"@]
    } else {
        Seq::empty()
    };
    let flags = if include_stats {
        mem.push("-s"@)
    } else {
        mem
    };
    if flags.len() == 0 {
        flags
    } else {
        seq!["+RTS"@] + flags + seq!["-RTS"@]
    }
}

/// Builds the compiler's runtime-system arguments from the available
/// memory, exactly as `spec_rts_args` states them.
pub fn build_rts_args(total_memory_gb: u64, include_stats: bool) -> (r: Vec<String>)
    ensures
        strs_of(r@) == spec_rts_args(total_memory_gb, include_stats),
{
    let mut flags: Vec<String> = Vec::new();
    if total_memory_gb > 31 {
        flags.push(String::from_str("-A256m"));
        flags.push(String::from_str("-n16m"));
    } else if total_memory_gb > 15 {
        flags.push(String::from_str("-A128m"));
        flags.push(String::from_str("-n8m"));
    }
    if include_stats {
        flags.push(String::from_str("-s"));
    }
    if flags.len() == 0 {
        proof {
            assert(strs_of(flags@) =~= spec_rts_args(total_memory_gb, include_stats));
        }
        return flags;
    }
    let mut out: Vec<String> = Vec::new();
    out.push(String::from_str("+RTS"));
    let mut i: usize = 0;
    let ghost fl = strs_of(flags@);
    while i < flags.len()
        invariant
            0 <= i <= flags@.len(),
            fl == strs_of(flags@),
            strs_of(out@) =~= seq!["+RTS"@] + fl.take(i as int),
        decreases flags@.len() - i,
    {
        let ghost o0 = out@;
        out.push(flags[i].clone());
        proof {
            assert(strs_of(out@) =~= strs_of(o0).push(fl[i as int]));
            assert(seq!["+RTS"@] + fl.take(i + 1) =~= (seq!["+RTS"@] + fl.take(i as int)).push(
                fl[i as int],
            ));
        }
        i += 1;
    }
    let ghost o1 = out@;
    out.push(String::from_str("-RTS"));
    proof {
        assert(fl.take(fl.len() as int) =~= fl);
        assert(strs_of(out@) =~= strs_of(o1).push("-RTS"@));
        assert(strs_of(out@) =~= seq!["+RTS"@] + fl + seq!["-RTS"@]);
        assert(fl =~= if include_stats {
            (if total_memory_gb > 31 {
                seq!["-A256m"@, "-n16m"@]
            } else if total_memory_gb > 15 {
                seq!["-A128m"@, "-n8m"@]
            } else {
                Seq::<Seq<char>>::empty()
            }).push("-s"@)
        } else {
            if total_memory_gb > 31 {
                seq!["-A256m"@, "-n16m"@]
            } else if total_memory_gb > 15 {
                seq!["-A128m"@, "-n8m"@]
            } else {
                Seq::<Seq<char>>::empty()
            }
        });
    }
    out
}

} // verus!
