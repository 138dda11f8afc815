//! The human-readable record of an inclusion proof: every value as a
//! decimal string, each sibling wrapped as a one-element array, exactly as
//! the proof record wire format asks.

use vstd::prelude::*;
use crate::field::{dec_digit, dec_of, Felt};
use crate::tree::MerkleProof;

verus! {

/// A decimal rendering in JSON string quotes.
pub open spec fn quoted_dec(v: int) -> Seq<char> {
    seq!['"'] + dec_of(v as nat) + seq!['"']
}

/// A quoted decimal wrapped as a one-element JSON array.
pub open spec fn bracketed_dec(v: int) -> Seq<char> {
    seq!['['] + quoted_dec(v) + seq![']']
}

/// JSON items joined with commas.
pub open spec fn comma_join(items: Seq<Seq<char>>) -> Seq<char>
    decreases items.len(),
{
    if items.len() == 0 {
        Seq::empty()
    } else if items.len() == 1 {
        items[0]
    } else {
        items[0] + seq![','] + comma_join(items.drop_first())
    }
}

/// The JSON text of an inclusion proof record.
pub open spec fn proof_json(leaf: int, siblings: Seq<int>, markers: Seq<int>, root: int) -> Seq<
    char,
> {
    ("{\"siblings\":[")@ + comma_join(siblings.map_values(|v: int| bracketed_dec(v))) + (
    "],\"pathIndices\":[")@ + comma_join(markers.map_values(|v: int| quoted_dec(v))) + (
    "],\"root\":\"")@ + dec_of(root as nat) + ("\",\"leaf\":\"")@ + dec_of(leaf as nat) + ("\"}")@
}

/// Joining one more item appends it after a comma (or alone, to an empty
/// join).
proof fn lemma_comma_join_snoc(items: Seq<Seq<char>>, x: Seq<char>)
    ensures
        comma_join(items.push(x)) == if items.len() == 0 {
            x
        } else {
            comma_join(items) + seq![','] + x
        },
    decreases items.len(),
{
    reveal_with_fuel(comma_join, 3);
    if items.len() == 0 {
        assert(items.push(x)[0] == x);
    } else if items.len() == 1 {
        assert(items.push(x)[0] == items[0]);
        assert(items.push(x).drop_first() =~= seq![x]);
        assert(comma_join(seq![x]) == x);
    } else {
        assert(items.push(x)[0] == items[0]);
        assert(items.push(x).drop_first() =~= items.drop_first().push(x));
        lemma_comma_join_snoc(items.drop_first(), x);
        assert(items[0] + seq![','] + (comma_join(items.drop_first()) + seq![','] + x) =~= (items[0]
            + seq![','] + comma_join(items.drop_first())) + seq![','] + x);
    }
}

/// The decimal rendering of a 64-bit value.
pub(crate) fn u64_to_decimal(x: u64) -> (r: String)
    ensures
        r@ == dec_of(x as nat),
    decreases x,
{
    if x < 10 {
        let mut s = String::new();
        append_digit(&mut s, x);
        proof {
            assert(Seq::<char>::empty() + seq![dec_digit(x as nat)] =~= seq![dec_digit(x as nat)]);
        }
        s
    } else {
        let mut s = u64_to_decimal(x / 10);
        append_digit(&mut s, x % 10);
        proof {
            assert(dec_of((x / 10) as nat) + seq![dec_digit((x % 10) as nat)] =~= dec_of(
                x as nat,
            ));
        }
        s
    }
}

/// Appends the digit character of a value below ten.
fn append_digit(s: &mut String, d: u64)
    requires
        d < 10,
    ensures
        final(s)@ == old(s)@ + seq![dec_digit(d as nat)],
{
    if d == 0 {
        s.append("0");
        proof {
            reveal_strlit("0");
            assert(("0")@ =~= seq![dec_digit(0)]);
        }
    } else if d == 1 {
        s.append("1");
        proof {
            reveal_strlit("1");
            assert(("1")@ =~= seq![dec_digit(1)]);
        }
    } else if d == 2 {
        s.append("2");
        proof {
            reveal_strlit("2");
            assert(("2")@ =~= seq![dec_digit(2)]);
        }
    } else if d == 3 {
        s.append("3");
        proof {
            reveal_strlit("3");
            assert(("3")@ =~= seq![dec_digit(3)]);
        }
    } else if d == 4 {
        s.append("4");
        proof {
            reveal_strlit("4");
            assert(("4")@ =~= seq![dec_digit(4)]);
        }
    } else if d == 5 {
        s.append("5");
        proof {
            reveal_strlit("5");
            assert(("5")@ =~= seq![dec_digit(5)]);
        }
    } else if d == 6 {
        s.append("6");
        proof {
            reveal_strlit("6");
            assert(("6")@ =~= seq![dec_digit(6)]);
        }
    } else if d == 7 {
        s.append("7");
        proof {
            reveal_strlit("7");
            assert(("7")@ =~= seq![dec_digit(7)]);
        }
    } else if d == 8 {
        s.append("8");
        proof {
            reveal_strlit("8");
            assert(("8")@ =~= seq![dec_digit(8)]);
        }
    } else {
        s.append("9");
        proof {
            reveal_strlit("9");
            assert(("9")@ =~= seq![dec_digit(9)]);
        }
    }
}

impl MerkleProof {
    /// Renders the proof as its JSON record text.
    pub fn to_json(&self) -> (r: String)
        ensures
            r@ == proof_json(self.leaf@, self.sibling_seq(), self.marker_seq(), self.root@),
    {
        let ghost sib_items = self.sibling_seq().map_values(|v: int| bracketed_dec(v));
        let ghost mark_items = self.marker_seq().map_values(|v: int| quoted_dec(v));
        let mut s = String::new();
        s.append("{\"siblings\":[");
        proof {
            assert(sib_items.take(0) =~= Seq::<Seq<char>>::empty());
            assert(Seq::<char>::empty() + ("{\"siblings\":[")@ =~= ("{\"siblings\":[")@ + comma_join(
                sib_items.take(0),
            ));
        }
        let mut i: usize = 0;
        while i < self.siblings.len()
            invariant
                i <= self.siblings@.len(),
                sib_items == self.sibling_seq().map_values(|v: int| bracketed_dec(v)),
                sib_items.len() == self.siblings@.len(),
                s@ == ("{\"siblings\":[")@ + comma_join(sib_items.take(i as int)),
            decreases self.siblings@.len() - i,
        {
            let ghost before = s@;
            if i > 0 {
                s.append(",");
            }
            s.append("[\"");
            let d = self.siblings[i].to_decimal();
            s.append(d.as_str());
            s.append("\"]");
            proof {
                reveal_strlit(",");
                reveal_strlit("[\"");
                reveal_strlit("\"]");
                let v = self.sibling_seq()[i as int];
                assert(sib_items[i as int] == bracketed_dec(v));
                assert(("[\"")@ + dec_of(v as nat) + ("\"]")@ =~= bracketed_dec(v));
                lemma_comma_join_snoc(sib_items.take(i as int), sib_items[i as int]);
                assert(sib_items.take(i as int).push(sib_items[i as int]) =~= sib_items.take(
                    i as int + 1,
                ));
                if i > 0 {
                    assert((",")@ =~= seq![',']);
                    assert(before + (",")@ + ("[\"")@ + d@ + ("\"]")@ =~= ("{\"siblings\":[")@
                        + comma_join(sib_items.take(i as int + 1)));
                } else {
                    assert(sib_items.take(0).len() == 0);
                    assert(before + ("[\"")@ + d@ + ("\"]")@ =~= ("{\"siblings\":[")@ + comma_join(
                        sib_items.take(i as int + 1),
                    ));
                }
            }
            i = i + 1;
        }
        proof {
            assert(sib_items.take(sib_items.len() as int) =~= sib_items);
        }
        s.append("],\"pathIndices\":[");
        proof {
            assert(mark_items.take(0) =~= Seq::<Seq<char>>::empty());
        }
        let mut j: usize = 0;
        while j < self.path_indices.len()
            invariant
                j <= self.path_indices@.len(),
                sib_items == self.sibling_seq().map_values(|v: int| bracketed_dec(v)),
                mark_items == self.marker_seq().map_values(|v: int| quoted_dec(v)),
                mark_items.len() == self.path_indices@.len(),
                s@ == ("{\"siblings\":[")@ + comma_join(sib_items) + ("],\"pathIndices\":[")@
                    + comma_join(mark_items.take(j as int)),
            decreases self.path_indices@.len() - j,
        {
            let ghost before = s@;
            if j > 0 {
                s.append(",");
            }
            s.append("\"");
            let d = u64_to_decimal(self.path_indices[j] as u64);
            s.append(d.as_str());
            s.append("\"");
            proof {
                reveal_strlit(",");
                reveal_strlit("\"");
                let v = self.marker_seq()[j as int];
                assert(mark_items[j as int] == quoted_dec(v));
                assert(("\"")@ + dec_of(v as nat) + ("\"")@ =~= quoted_dec(v));
                lemma_comma_join_snoc(mark_items.take(j as int), mark_items[j as int]);
                assert(mark_items.take(j as int).push(mark_items[j as int]) =~= mark_items.take(
                    j as int + 1,
                ));
                if j > 0 {
                    assert((",")@ =~= seq![',']);
                    assert(before + (",")@ + ("\"")@ + d@ + ("\"")@ =~= ("{\"siblings\":[")@
                        + comma_join(sib_items) + ("],\"pathIndices\":[")@ + comma_join(
                        mark_items.take(j as int + 1),
                    ));
                } else {
                    assert(before + ("\"")@ + d@ + ("\"")@ =~= ("{\"siblings\":[")@ + comma_join(
                        sib_items,
                    ) + ("],\"pathIndices\":[")@ + comma_join(mark_items.take(j as int + 1)));
                }
            }
            j = j + 1;
        }
        proof {
            assert(mark_items.take(mark_items.len() as int) =~= mark_items);
        }
        s.append("],\"root\":\"");
        let dr = self.root.to_decimal();
        s.append(dr.as_str());
        s.append("\",\"leaf\":\"");
        let dl = self.leaf.to_decimal();
        s.append(dl.as_str());
        s.append("\"}");
        proof {
            assert(s@ =~= proof_json(self.leaf@, self.sibling_seq(), self.marker_seq(), self.root@));
        }
        s
    }
}

/// An inclusion proof as a record of decimal strings, each sibling wrapped
/// as a one-element array.
#[allow(non_snake_case)]
pub struct MerkleProofJson {
    pub siblings: Vec<[String; 1]>,
    pub pathIndices: Vec<String>,
    pub root: String,
    pub leaf: String,
}

impl MerkleProof {
    /// The proof as a record of decimal strings.
    pub fn to_record(&self) -> (r: MerkleProofJson)
        ensures
            r.siblings@.len() == self.siblings@.len(),
            forall|k: int| 0 <= k < r.siblings@.len() ==> (#[trigger] r.siblings@[k])[0]@ == dec_of(
                self.sibling_seq()[k] as nat,
            ),
            r.pathIndices@.len() == self.path_indices@.len(),
            forall|k: int| 0 <= k < r.pathIndices@.len() ==> (#[trigger] r.pathIndices@[k])@
                == dec_of(self.marker_seq()[k] as nat),
            r.root@ == dec_of(self.root@ as nat),
            r.leaf@ == dec_of(self.leaf@ as nat),
    {
        let mut siblings: Vec<[String; 1]> = Vec::new();
        let mut i: usize = 0;
        while i < self.siblings.len()
            invariant
                i <= self.siblings@.len(),
                siblings@.len() == i,
                forall|k: int| 0 <= k < i ==> (#[trigger] siblings@[k])[0]@ == dec_of(
                    self.sibling_seq()[k] as nat,
                ),
            decreases self.siblings@.len() - i,
        {
            let d = self.siblings[i].to_decimal();
            siblings.push([d]);
            i = i + 1;
        }
        let mut path_strings: Vec<String> = Vec::new();
        let mut j: usize = 0;
        while j < self.path_indices.len()
            invariant
                j <= self.path_indices@.len(),
                path_strings@.len() == j,
                forall|k: int| 0 <= k < j ==> (#[trigger] path_strings@[k])@ == dec_of(
                    self.marker_seq()[k] as nat,
                ),
            decreases self.path_indices@.len() - j,
        {
            let d = u64_to_decimal(self.path_indices[j] as u64);
            path_strings.push(d);
            j = j + 1;
        }
        MerkleProofJson {
            siblings,
            pathIndices: path_strings,
            root: self.root.to_decimal(),
            leaf: self.leaf.to_decimal(),
        }
    }
}

} // verus!
