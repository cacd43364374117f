//! Drag reassignment: moving a held span of blocks from a source cell to a
//! target cell, as one engine transaction.

use vstd::prelude::*;
use crate::business::{
    Business, BusinessView, find_emp_idx, find_role_idx, assign_block_ok_spec,
    remove_block_ok_spec, lemma_find_emp_idx, lemma_find_role_idx,
};

verus! {

/// One grid cell reference carried by the drag layer: the employee, role
/// and block it denotes, and the span (`len`, with the dragged cell at
/// `len_index` within it) for multi-block drags. An employee id of 0 in a
/// target means "unassign".
#[derive(Clone, Copy, PartialEq, Eq, Structural, Debug)]
pub struct TimeBlock {
    pub emp_id: usize,
    pub time_index: usize,
    pub role: usize,
    pub len: usize,
    pub len_index: usize,
}

impl TimeBlock {
    /// A single-block cell reference.
    pub fn new_simple(emp_id: usize, time_index: usize, role: usize) -> (r: TimeBlock)
        ensures
            r == (TimeBlock { emp_id, time_index, role, len: 1, len_index: 0 }),
    {
        TimeBlock { emp_id, time_index, role, len: 1, len_index: 0 }
    }
}

/// The target and source index lists of a multi-block drag, walking the
/// held span: positions at or before the held offset step backward from
/// each anchor, later positions step forward. A position whose index would
/// fall outside the representable range is left out, and target indexes
/// are collected only for a real target employee.
pub open spec fn drag_lists(
    tgt: Seq<usize>,
    src: Seq<usize>,
    target: TimeBlock,
    held: TimeBlock,
    i: int,
) -> (Seq<usize>, Seq<usize>)
    decreases held.len - i,
{
    if i < 0 || i >= held.len {
        (tgt, src)
    } else {
        let back = i <= held.len_index;
        let t_val = if back {
            target.time_index - i
        } else {
            target.time_index + (i - held.len_index)
        };
        let s_val = if back {
            held.time_index - i
        } else {
            held.time_index + (i - held.len_index)
        };
        let tgt2 = if target.emp_id != 0 && 0 <= t_val <= usize::MAX {
            tgt.push(t_val as usize)
        } else {
            tgt
        };
        let src2 = if 0 <= s_val <= usize::MAX {
            src.push(s_val as usize)
        } else {
            src
        };
        drag_lists(tgt2, src2, target, held, i + 1)
    }
}

/// The source indexes that are not also target indexes; order kept.
pub open spec fn seq_diff(src: Seq<usize>, tgt: Seq<usize>) -> Seq<usize>
    decreases src.len(),
{
    if src.len() == 0 {
        src
    } else if tgt.contains(src.last()) {
        seq_diff(src.drop_last(), tgt)
    } else {
        seq_diff(src.drop_last(), tgt).push(src.last())
    }
}

/// What a drag does once the index lists are fixed: assign the target
/// span, and on success release the source span (keeping any overlap on a
/// self-move); when the assignment fails because the target was
/// "unassign", release the source anyway; any other failure changes
/// nothing.
pub open spec fn drag_apply_spec(
    b: BusinessView,
    target: TimeBlock,
    drag: TimeBlock,
    tgt: Seq<usize>,
    src: Seq<usize>,
) -> BusinessView {
    let assign_ok = match (find_emp_idx(b.employees, target.emp_id), find_role_idx(
        b.roles,
        drag.role,
    )) {
        (Some(ke), Some(kr)) => b.employees[ke].roles.contains(drag.role),
        _ => false,
    };
    if assign_ok {
        let ke = find_emp_idx(b.employees, target.emp_id)->0;
        let kr = find_role_idx(b.roles, drag.role)->0;
        let b1 = assign_block_ok_spec(b, ke, kr, drag.role, tgt).0;
        if drag.emp_id != 0 {
            let rel = if drag.emp_id == target.emp_id {
                seq_diff(src, tgt)
            } else {
                src
            };
            match find_emp_idx(b1.employees, drag.emp_id) {
                Some(kd) => remove_block_ok_spec(b1, kd, rel),
                None => b1,
            }
        } else {
            b1
        }
    } else if target.emp_id == 0 {
        match find_emp_idx(b.employees, drag.emp_id) {
            Some(kd) => remove_block_ok_spec(b, kd, src),
            None => b,
        }
    } else {
        b
    }
}

/// The whole drag transaction: a no-op when target and source denote the
/// same role at the same held block; otherwise the held span is expanded
/// into index lists and applied.
pub open spec fn drag_assign_spec(
    b: BusinessView,
    target: TimeBlock,
    drag: TimeBlock,
    held: TimeBlock,
) -> BusinessView {
    if target.role == drag.role && target.time_index == held.time_index {
        b
    } else {
        let lists = if drag.len <= 1 {
            (seq![target.time_index], seq![drag.time_index])
        } else {
            drag_lists(Seq::empty(), Seq::empty(), target, held, 0)
        };
        drag_apply_spec(b, target, drag, lists.0, lists.1)
    }
}

/// A copy of `src` without the values present in `tgt`.
fn seq_diff_exec(src: &Vec<usize>, tgt: &Vec<usize>) -> (r: Vec<usize>)
    ensures
        r@ == seq_diff(src@, tgt@),
{
    let mut r: Vec<usize> = Vec::new();
    let mut i: usize = 0;
    while i < src.len()
        invariant
            i <= src@.len(),
            r@ == seq_diff(src@.take(i as int), tgt@),
        decreases src@.len() - i,
    {
        proof {
            assert(src@.take(i as int + 1).drop_last() =~= src@.take(i as int));
            assert(src@.take(i as int + 1).last() == src@[i as int]);
        }
        if !crate::role::contains_usize(tgt, src[i]) {
            r.push(src[i]);
        }
        i = i + 1;
    }
    proof {
        assert(src@.take(src@.len() as int) =~= src@);
    }
    r
}

impl Business {
    /// Applies a drag of the held span from the source cell onto the target
    /// cell: assigns the target indexes through the engine and, on success,
    /// releases the source indexes (keeping the overlap when an employee is
    /// moved onto their own range); a target of "unassign" releases the
    /// source even though nothing is assigned. A drag onto the same role
    /// and held block does nothing.
    pub fn drag_assign(&mut self, target: TimeBlock, drag: TimeBlock, held: TimeBlock)
        requires
            old(self).wf(),
        ensures
            final(self).wf(),
            final(self)@ == drag_assign_spec(old(self)@, target, drag, held),
    {
        let ghost b0 = self@;
        if target.role == drag.role && target.time_index == held.time_index {
            return ;
        }
        let mut tgt: Vec<usize> = Vec::new();
        let mut src: Vec<usize> = Vec::new();
        if drag.len <= 1 {
            tgt.push(target.time_index);
            src.push(drag.time_index);
            proof {
                assert(tgt@ =~= seq![target.time_index]);
                assert(src@ =~= seq![drag.time_index]);
            }
        } else {
            let mut i: usize = 0;
            while i < held.len
                invariant
                    i <= held.len,
                    drag_lists(Seq::empty(), Seq::empty(), target, held, 0) == drag_lists(
                        tgt@,
                        src@,
                        target,
                        held,
                        i as int,
                    ),
                decreases held.len - i,
            {
                let ghost pre_t = tgt@;
                let ghost pre_s = src@;
                if i <= held.len_index {
                    if target.emp_id != 0 && i <= target.time_index {
                        tgt.push(target.time_index - i);
                    }
                    if i <= held.time_index {
                        src.push(held.time_index - i);
                    }
                } else {
                    let off = i - held.len_index;
                    if target.emp_id != 0 {
                        match target.time_index.checked_add(off) {
                            Some(v) => tgt.push(v),
                            None => {},
                        }
                    }
                    match held.time_index.checked_add(off) {
                        Some(v) => src.push(v),
                        None => {},
                    }
                }
                proof {
                    assert(drag_lists(pre_t, pre_s, target, held, i as int) == drag_lists(
                        tgt@,
                        src@,
                        target,
                        held,
                        i as int + 1,
                    ));
                }
                i = i + 1;
            }
            proof {
                assert(drag_lists(tgt@, src@, target, held, held.len as int) == (tgt@, src@));
            }
        }
        let ghost tgt0 = tgt@;
        let ghost src0 = src@;
        let tgt_copy = crate::role::copy_usize_vec(&tgt);
        let res = self.assign_block(target.emp_id, drag.role, tgt);
        proof {
            lemma_find_emp_idx(b0.employees, target.emp_id);
            lemma_find_role_idx(b0.roles, drag.role);
        }
        match res {
            Ok(_) => {
                if drag.emp_id != 0 {
                    let ghost b1 = self@;
                    if drag.emp_id == target.emp_id {
                        let rel = seq_diff_exec(&src, &tgt_copy);
                        let _ = self.remove_block(drag.emp_id, rel);
                    } else {
                        let _ = self.remove_block(drag.emp_id, src);
                    }
                    proof {
                        lemma_find_emp_idx(b1.employees, drag.emp_id);
                    }
                }
            },
            Err(_) => {
                if target.emp_id == 0 {
                    let _ = self.remove_block(drag.emp_id, src);
                    proof {
                        lemma_find_emp_idx(b0.employees, drag.emp_id);
                    }
                }
            },
        }
    }
}

} // verus!
