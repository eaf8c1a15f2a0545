//! Table handles and their deterministic derivation.
use crate::bytes::{be_bytes, be_value, from_be_bytes, lemma_pow256_16, to_be_bytes};
use crate::hash::{sha3_256, sha3_256_of};
use vstd::prelude::*;

verus! {

/// The identity of one table: a 128-bit value, compared bit-wise.
#[derive(Copy, Clone, Debug, PartialEq, Eq, Structural, PartialOrd, Ord, Hash)]
pub struct TableHandle(pub u128);

/// The bytes hashed to derive the handle of the table created after `count` others in the
/// execution identified by `txn_hash`: both numbers in big-endian order, on 16 and 8 bytes.
pub open spec fn handle_preimage(txn_hash: u128, count: nat) -> Seq<u8> {
    be_bytes(txn_hash as nat, 16) + be_bytes(count, 8)
}

/// The handle derived from an execution's identity and the number of tables it created before:
/// the first 16 bytes of the SHA3-256 digest of `handle_preimage`, read as a big-endian integer.
pub open spec fn derived_handle(txn_hash: u128, count: nat) -> TableHandle {
    TableHandle(be_value(sha3_256_of(handle_preimage(txn_hash, count)).take(16)) as u128)
}

/// The upper-case hexadecimal digit of `d`.
pub open spec fn hex_digit(d: nat) -> char {
    seq!['0', '1', '2', '3', '4', '5', '6', '7', '8', '9', 'A', 'B', 'C', 'D', 'E', 'F'][d as int]
}

/// `n` in upper-case hexadecimal, without leading zeros.
pub open spec fn hex_upper(n: nat) -> Seq<char>
    decreases n,
{
    if n < 16 {
        seq![hex_digit(n)]
    } else {
        hex_upper(n / 16).push(hex_digit(n % 16))
    }
}

/// The text of one hexadecimal digit.
fn hex_digit_str(d: u8) -> (r: &'static str)
    requires
        d < 16,
    ensures
        r@ == seq![hex_digit(d as nat)],
{
    proof {
        reveal_strlit("0");
        reveal_strlit("1");
        reveal_strlit("2");
        reveal_strlit("3");
        reveal_strlit("4");
        reveal_strlit("5");
        reveal_strlit("6");
        reveal_strlit("7");
        reveal_strlit("8");
        reveal_strlit("9");
        reveal_strlit("A");
        reveal_strlit("B");
        reveal_strlit("C");
        reveal_strlit("D");
        reveal_strlit("E");
        reveal_strlit("F");
    }
    match d {
        0 => "0",
        1 => "1",
        2 => "2",
        3 => "3",
        4 => "4",
        5 => "5",
        6 => "6",
        7 => "7",
        8 => "8",
        9 => "9",
        10 => "A",
        11 => "B",
        12 => "C",
        13 => "D",
        14 => "E",
        _ => "F",
    }
}

impl TableHandle {
    /// The handle as text: `T-`, the handle in upper-case hexadecimal, and a line break.
    pub fn to_display_string(&self) -> (r: String)
        ensures
            r@ == seq!['T', '-'] + hex_upper(self.0 as nat) + seq!['\n'],
    {
        let mut digits: Vec<u8> = Vec::new();
        let mut x: u128 = self.0;
        proof {
            assert(hex_upper(self.0 as nat) =~= hex_upper(x as nat) + digits@.map_values(
                |d: u8| hex_digit(d as nat),
            ));
        }
        while x >= 16
            invariant
                hex_upper(self.0 as nat) == hex_upper(x as nat) + digits@.map_values(
                    |d: u8| hex_digit(d as nat),
                ),
                forall|j: int| 0 <= j < digits@.len() ==> #[trigger] digits@[j] < 16,
            decreases x,
        {
            let d: u8 = (x % 16) as u8;
            let ghost old_digits = digits@;
            digits.insert(0, d);
            proof {
                assert(digits@ =~= seq![d] + old_digits);
                assert(hex_upper(x as nat) == hex_upper((x / 16) as nat).push(hex_digit(d as nat)));
                assert(hex_upper(x as nat) + old_digits.map_values(|d: u8| hex_digit(d as nat))
                    =~= hex_upper((x / 16) as nat) + digits@.map_values(
                    |d: u8| hex_digit(d as nat),
                ));
            }
            x = x / 16;
        }
        let ghost old_digits = digits@;
        digits.insert(0, x as u8);
        proof {
            assert(digits@ =~= seq![x as u8] + old_digits);
            assert(hex_upper(self.0 as nat) =~= digits@.map_values(|d: u8| hex_digit(d as nat)));
            reveal_strlit("T-");
            reveal_strlit("\n");
        }
        let mut text = <String as vstd::string::StringExecFns>::from_str("T-");
        let mut i: usize = 0;
        while i < digits.len()
            invariant
                i <= digits@.len(),
                forall|j: int| 0 <= j < digits@.len() ==> #[trigger] digits@[j] < 16,
                text@ == seq!['T', '-'] + digits@.take(i as int).map_values(
                    |d: u8| hex_digit(d as nat),
                ),
            decreases digits@.len() - i,
        {
            let ghost before = text@;
            vstd::string::StringExecFns::append(&mut text, hex_digit_str(digits[i]));
            proof {
                assert(digits@.take(i as int + 1).map_values(|d: u8| hex_digit(d as nat))
                    =~= digits@.take(i as int).map_values(|d: u8| hex_digit(d as nat)).push(
                    hex_digit(digits@[i as int] as nat),
                ));
            }
            i = i + 1;
        }
        proof {
            assert(digits@.take(digits@.len() as int) =~= digits@);
        }
        vstd::string::StringExecFns::append(&mut text, "\n");
        text
    }

    /// The handle's 16 bytes in big-endian order.
    pub fn to_be_bytes(&self) -> (r: Vec<u8>)
        ensures
            r@ == be_bytes(self.0 as nat, 16),
    {
        proof {
            lemma_pow256_16();
        }
        to_be_bytes(self.0, 16)
    }
}

/// Derives the handle of the table that an execution identified by `txn_hash` creates after
/// `count` others.
pub fn derive_handle(txn_hash: u128, count: usize) -> (r: TableHandle)
    ensures
        r == derived_handle(txn_hash, count as nat),
{
    proof {
        lemma_pow256_16();
    }
    let mut data = to_be_bytes(txn_hash, 16);
    let mut tail = to_be_bytes(count as u128, 8);
    data.append(&mut tail);
    let digest = sha3_256(data.as_slice());
    let id = from_be_bytes(digest.as_slice(), 16);
    proof {
        crate::bytes::lemma_be_value_bound(digest@.take(16));
    }
    TableHandle(id)
}

} // verus!
