//! Assembling the payload of a commit object.
//!
//! The payload is plain text: a `tree` line, an optional `parent` line, an
//! `author` and a `committer` stamp line, a blank line, and the message. Who
//! the author is and what the clock says come from the caller; this module
//! only fixes the bytes.

use vstd::prelude::*;
use crate::bytes::push_all;
use crate::digits::{dec_digits, u64_to_decimal};

verus! {

/// One identity stamp: `name <email> timestamp zone`, then a newline.
pub open spec fn stamp_spec(name: Seq<u8>, email: Seq<u8>, timestamp: u64, tz: Seq<u8>) -> Seq<u8> {
    name + seq![32u8, 60u8] + email + seq![62u8, 32u8] + dec_digits(timestamp as nat)
        + seq![32u8] + tz + seq![10u8]
}

/// The whole commit payload.
pub open spec fn commit_payload_spec(
    tree_hex: Seq<u8>,
    parent_hex: Option<Seq<u8>>,
    name: Seq<u8>,
    email: Seq<u8>,
    timestamp: u64,
    tz: Seq<u8>,
    message: Seq<u8>,
) -> Seq<u8> {
    let tree_line = seq![116u8, 114u8, 101u8, 101u8, 32u8] + tree_hex + seq![10u8];
    let parent_line = match parent_hex {
        Some(p) => seq![112u8, 97u8, 114u8, 101u8, 110u8, 116u8, 32u8] + p + seq![10u8],
        None => Seq::<u8>::empty(),
    };
    tree_line + parent_line + seq![97u8, 117u8, 116u8, 104u8, 111u8, 114u8, 32u8]
        + stamp_spec(name, email, timestamp, tz)
        + seq![99u8, 111u8, 109u8, 109u8, 105u8, 116u8, 116u8, 101u8, 114u8, 32u8]
        + stamp_spec(name, email, timestamp, tz) + seq![10u8] + message + seq![10u8]
}

/// Append one identity stamp line.
fn push_stamp(out: &mut Vec<u8>, name: &Vec<u8>, email: &Vec<u8>, timestamp: u64, tz: &Vec<u8>)
    ensures
        final(out)@ == old(out)@ + stamp_spec(name@, email@, timestamp, tz@),
{
    let ghost before = out@;
    push_all(out, name);
    out.push(32u8);
    out.push(60u8);
    push_all(out, email);
    out.push(62u8);
    out.push(32u8);
    let digs = u64_to_decimal(timestamp);
    push_all(out, &digs);
    out.push(32u8);
    push_all(out, tz);
    out.push(10u8);
    proof {
        assert(out@ =~= before + stamp_spec(name@, email@, timestamp, tz@));
    }
}

/// Build the commit payload from its parts.
#[verifier::rlimit(100)]
pub fn commit_payload(
    tree_hex: &Vec<u8>,
    parent_hex: Option<&Vec<u8>>,
    name: &Vec<u8>,
    email: &Vec<u8>,
    timestamp: u64,
    tz: &Vec<u8>,
    message: &Vec<u8>,
) -> (r: Vec<u8>)
    ensures
        r@ == commit_payload_spec(
            tree_hex@,
            match parent_hex {
                Some(p) => Some(p@),
                None => None::<Seq<u8>>,
            },
            name@,
            email@,
            timestamp,
            tz@,
            message@,
        ),
{
    let mut out: Vec<u8> = Vec::new();
    // "tree <hex>\n"
    out.push(116u8);
    out.push(114u8);
    out.push(101u8);
    out.push(101u8);
    out.push(32u8);
    push_all(&mut out, tree_hex);
    out.push(10u8);
    let ghost after_tree = out@;
    proof {
        assert(after_tree =~= seq![116u8, 114u8, 101u8, 101u8, 32u8] + tree_hex@ + seq![10u8]);
    }
    // "parent <hex>\n", when there is a parent
    match parent_hex {
        Some(p) => {
            out.push(112u8);
            out.push(97u8);
            out.push(114u8);
            out.push(101u8);
            out.push(110u8);
            out.push(116u8);
            out.push(32u8);
            push_all(&mut out, p);
            out.push(10u8);
            proof {
                assert(out@ =~= after_tree
                    + (seq![112u8, 97u8, 114u8, 101u8, 110u8, 116u8, 32u8] + p@ + seq![10u8]));
            }
        }
        None => {
            proof {
                assert(out@ =~= after_tree + Seq::<u8>::empty());
            }
        }
    }
    let ghost after_parent = out@;
    // "author <stamp>"
    out.push(97u8);
    out.push(117u8);
    out.push(116u8);
    out.push(104u8);
    out.push(111u8);
    out.push(114u8);
    out.push(32u8);
    push_stamp(&mut out, name, email, timestamp, tz);
    let ghost after_author = out@;
    proof {
        assert(after_author =~= after_parent + seq![97u8, 117u8, 116u8, 104u8, 111u8, 114u8, 32u8]
            + stamp_spec(name@, email@, timestamp, tz@));
    }
    // "committer <stamp>"
    out.push(99u8);
    out.push(111u8);
    out.push(109u8);
    out.push(109u8);
    out.push(105u8);
    out.push(116u8);
    out.push(116u8);
    out.push(101u8);
    out.push(114u8);
    out.push(32u8);
    push_stamp(&mut out, name, email, timestamp, tz);
    let ghost after_committer = out@;
    proof {
        assert(after_committer =~= after_author
            + seq![99u8, 111u8, 109u8, 109u8, 105u8, 116u8, 116u8, 101u8, 114u8, 32u8]
            + stamp_spec(name@, email@, timestamp, tz@));
    }
    // blank line, message, final newline
    out.push(10u8);
    push_all(&mut out, message);
    out.push(10u8);
    proof {
        assert(out@ =~= after_committer + seq![10u8] + message@ + seq![10u8]);
        assert(out@ =~= commit_payload_spec(
            tree_hex@,
            match parent_hex {
                Some(p) => Some(p@),
                None => None::<Seq<u8>>,
            },
            name@,
            email@,
            timestamp,
            tz@,
            message@,
        ));
    }
    out
}

} // verus!
