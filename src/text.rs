use vstd::prelude::*;
use vstd::string::StringExecFns;

use crate::tree::Node;

verus! {

/// The decimal digit `d`, for `d < 10`.
pub open spec fn digit_char(d: nat) -> char {
    seq!['0', '1', '2', '3', '4', '5', '6', '7', '8', '9'][d as int]
}

/// The decimal text of `n`, without leading zeros.
pub open spec fn nat_text(n: nat) -> Seq<char>
    decreases n,
{
    if n < 10 {
        seq![digit_char(n)]
    } else {
        nat_text(n / 10).push(digit_char(n % 10))
    }
}

/// The decimal text of `v`, with a leading `-` when it is negative.
pub open spec fn int_text(v: int) -> Seq<char> {
    if v < 0 {
        seq!['-'] + nat_text((-v) as nat)
    } else {
        nat_text(v as nat)
    }
}

/// A tree as `[v]`, or as `[v [...]]` followed by its children's list.
pub open spec fn tree_text(t: Node) -> Seq<char>
    decreases t,
{
    if t.children@.len() == 0 {
        seq!['['] + int_text(t.value as int) + seq![']']
    } else {
        seq!['['] + int_text(t.value as int) + seq![' ', '['] + list_text(t.children@) + seq![
            ']',
            ']',
        ]
    }
}

/// The trees of a forest, each as [`tree_text`], separated by `, `.
pub open spec fn list_text(f: Seq<Node>) -> Seq<char>
    decreases f,
{
    if f.len() == 0 {
        Seq::empty()
    } else if f.len() == 1 {
        tree_text(f[0])
    } else {
        list_text(f.drop_last()) + seq![',', ' '] + tree_text(f.last())
    }
}

/// A forest in the nested bracket notation: `[` its list `]`.
pub open spec fn forest_text(f: Seq<Node>) -> Seq<char> {
    seq!['['] + list_text(f) + seq![']']
}

fn digit_str(d: u32) -> (r: &'static str)
    requires
        d < 10,
    ensures
        r@ == seq![digit_char(d as nat)],
{
    proof {
        reveal_strlit("0");
        reveal_strlit("1");
        reveal_strlit("2");
        reveal_strlit("3");
        reveal_strlit("4");
        reveal_strlit("5");
        reveal_strlit("6");
        reveal_strlit("7");
        reveal_strlit("8");
        reveal_strlit("9");
    }
    match d {
        0 => "0",
        1 => "1",
        2 => "2",
        3 => "3",
        4 => "4",
        5 => "5",
        6 => "6",
        7 => "7",
        8 => "8",
        _ => "9",
    }
}

fn write_nat(n: u32, out: &mut String)
    ensures
        final(out)@ == old(out)@ + nat_text(n as nat),
    decreases n,
{
    if n >= 10 {
        write_nat(n / 10, out);
    }
    out.append(digit_str(n % 10));
    proof {
        if n >= 10 {
            assert(final(out)@ =~= old(out)@ + nat_text(n as nat));
        }
    }
}

fn write_int(v: i32, out: &mut String)
    ensures
        final(out)@ == old(out)@ + int_text(v as int),
{
    if v < 0 {
        proof {
            reveal_strlit("-");
        }
        out.append("-");
        let n: u32 = (-(v as i64)) as u32;
        write_nat(n, out);
        proof {
            assert(final(out)@ =~= old(out)@ + int_text(v as int));
        }
    } else {
        write_nat(v as u32, out);
    }
}

fn format_node(t: &Node, out: &mut String)
    ensures
        final(out)@ == old(out)@ + tree_text(*t),
    decreases t,
{
    proof {
        reveal_strlit("[");
        reveal_strlit("]");
        reveal_strlit(" [");
        reveal_strlit("]]");
    }
    out.append("[");
    write_int(t.value, out);
    if t.children.len() == 0 {
        out.append("]");
        proof {
            assert(final(out)@ =~= old(out)@ + tree_text(*t));
        }
    } else {
        out.append(" [");
        format_nodes(&t.children, out);
        out.append("]]");
        proof {
            assert(final(out)@ =~= old(out)@ + tree_text(*t));
        }
    }
}

fn format_nodes(f: &Vec<Node>, out: &mut String)
    ensures
        final(out)@ == old(out)@ + list_text(f@),
    decreases f,
{
    proof {
        reveal_strlit(", ");
    }
    let ghost start = out@;
    let mut i: usize = 0;
    proof {
        assert(f@.take(0) =~= Seq::<Node>::empty());
        assert(out@ =~= start + list_text(f@.take(0)));
    }
    while i < f.len()
        invariant
            i <= f@.len(),
            out@ == start + list_text(f@.take(i as int)),
        decreases f@.len() - i,
    {
        proof {
            assert(f@.take(i + 1).drop_last() =~= f@.take(i as int));
            assert(f@.take(i + 1).last() == f@[i as int]);
        }
        if i > 0 {
            proof {
                reveal_strlit(", ");
            }
            out.append(", ");
        }
        format_node(&f[i], out);
        proof {
            let p = f@.take(i + 1);
            if i == 0 {
                assert(p.len() == 1);
                assert(p[0] == f@[0]);
                assert(list_text(p) == tree_text(f@[0]));
            } else {
                assert(list_text(p) == list_text(f@.take(i as int)) + seq![',', ' '] + tree_text(
                    f@[i as int],
                ));
            }
            assert(out@ =~= start + list_text(p));
        }
        i = i + 1;
    }
    proof {
        assert(f@.take(i as int) =~= f@);
    }
}

/// Writes a forest in the nested bracket notation of [`forest_text`].
pub fn format_node_list(f: &Vec<Node>, out: &mut String)
    ensures
        final(out)@ == old(out)@ + forest_text(f@),
{
    proof {
        reveal_strlit("[");
        reveal_strlit("]");
    }
    out.append("[");
    format_nodes(f, out);
    out.append("]");
    proof {
        assert(final(out)@ =~= old(out)@ + forest_text(f@));
    }
}

} // verus!
