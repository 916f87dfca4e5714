//! Desert network traversal: a cycled list of left/right instructions
//! drives one or more walkers through a map of three-letter nodes until
//! every walker stands on a goal node.

use vstd::prelude::*;

use crate::text;

verus! {

/// One turn of the instruction list.
#[derive(Debug, Clone, Copy, PartialEq, Eq, Structural, Hash)]
pub enum Instruction {
    Left,
    Right,
}

/// The instructions a character names, if any.
pub open spec fn instr_of_char(c: char) -> Seq<Instruction> {
    if c == 'L' {
        seq![Instruction::Left]
    } else if c == 'R' {
        seq![Instruction::Right]
    } else {
        seq![]
    }
}

/// The instruction stack a line describes: the line's instructions in
/// reverse, so that popping yields them in reading order.
pub open spec fn stack_of(s: Seq<char>) -> Seq<Instruction>
    decreases s.len(),
{
    if s.len() == 0 {
        seq![]
    } else {
        instr_of_char(s.last()) + stack_of(s.drop_last())
    }
}

pub proof fn lemma_stack_of_concat(a: Seq<char>, b: Seq<char>)
    ensures
        stack_of(a + b) == stack_of(b) + stack_of(a),
    decreases b.len(),
{
    if b.len() == 0 {
        assert(a + b =~= a);
        assert(stack_of(b) + stack_of(a) =~= stack_of(a));
    } else {
        assert((a + b).drop_last() =~= a + b.drop_last());
        assert((a + b).last() == b.last());
        lemma_stack_of_concat(a, b.drop_last());
        assert(instr_of_char(b.last()) + (stack_of(b.drop_last()) + stack_of(a)) =~= (instr_of_char(
            b.last(),
        ) + stack_of(b.drop_last())) + stack_of(a));
    }
}

/// Reads the instruction line into a pop-ready stack: `L` and `R` turn
/// into instructions, reversed; other characters are skipped.
#[verifier::loop_isolation(false)]
pub fn parse_traversal_stack(s: &str) -> (r: Vec<Instruction>)
    ensures
        r@ == stack_of(s@),
{
    let chars = text::str_chars(s);
    let n = chars.len();
    let mut out: Vec<Instruction> = Vec::new();
    let mut i: usize = n;
    proof {
        assert(chars@.skip(n as int) =~= Seq::<char>::empty());
        assert(out@ =~= stack_of(chars@.skip(n as int)));
    }
    while i > 0
        invariant
            i <= n,
            n == chars@.len(),
            out@ == stack_of(chars@.skip(i as int)),
        decreases i,
    {
        let c = chars[i - 1];
        let ghost pre = chars@.skip(i as int);
        proof {
            assert(chars@.skip(i - 1) =~= seq![chars@[i - 1]] + pre);
            lemma_stack_of_concat(seq![chars@[i - 1]], pre);
            assert(seq![chars@[i - 1]].last() == chars@[i - 1]);
            assert(seq![chars@[i - 1]].drop_last() =~= Seq::<char>::empty());
            assert(stack_of(seq![chars@[i - 1]]) == instr_of_char(chars@[i - 1]) + stack_of(
                Seq::<char>::empty(),
            ));
            assert(instr_of_char(chars@[i - 1]) + Seq::<Instruction>::empty() =~= instr_of_char(
                chars@[i - 1],
            ));
        }
        if c == 'L' {
            out.push(Instruction::Left);
            proof {
                assert(out@ =~= stack_of(pre) + instr_of_char(chars@[i - 1]));
            }
        } else if c == 'R' {
            out.push(Instruction::Right);
            proof {
                assert(out@ =~= stack_of(pre) + instr_of_char(chars@[i - 1]));
            }
        } else {
            proof {
                assert(out@ =~= stack_of(pre) + instr_of_char(chars@[i - 1]));
            }
        }
        i -= 1;
    }
    proof {
        assert(chars@.skip(0) =~= chars@);
    }
    out
}

// ---------------------------------------------------------------------------
// The node map
// ---------------------------------------------------------------------------

/// The network of nodes: each entry maps a node id to its left and right
/// successors; a later entry for the same id wins.
pub struct Tree {
    pub nodes: Vec<(Vec<char>, Vec<char>, Vec<char>)>,
}

/// The map the entry list denotes, later entries overriding earlier ones.
pub open spec fn map_of(nodes: Seq<(Seq<char>, Seq<char>, Seq<char>)>) -> Map<
    Seq<char>,
    (Seq<char>, Seq<char>),
>
    decreases nodes.len(),
{
    if nodes.len() == 0 {
        Map::empty()
    } else {
        map_of(nodes.drop_last()).insert(nodes.last().0, (nodes.last().1, nodes.last().2))
    }
}

impl Tree {
    pub open spec fn entries(self) -> Seq<(Seq<char>, Seq<char>, Seq<char>)> {
        Seq::new(self.nodes@.len(), |k: int| (self.nodes@[k].0@, self.nodes@[k].1@, self.nodes@[k].2@))
    }

    /// The map this tree denotes.
    pub open spec fn map_spec(self) -> Map<Seq<char>, (Seq<char>, Seq<char>)> {
        map_of(self.entries())
    }

    /// The left and right successors of `id`, if the map has it.
    #[verifier::loop_isolation(false)]
    pub fn get(&self, id: &Vec<char>) -> (r: Option<(&Vec<char>, &Vec<char>)>)
        ensures
            self.map_spec().contains_key(id@) ==> (r matches Some(p) && (p.0@, p.1@)
                == self.map_spec()[id@]),
            !self.map_spec().contains_key(id@) ==> r is None,
    {
        let n = self.nodes.len();
        let mut i: usize = n;
        proof {
            lemma_map_of_prefix(self.entries(), n as int, id@);
        }
        while i > 0
            invariant
                i <= n,
                n == self.nodes@.len(),
                self.map_spec().contains_key(id@) <==> map_of(
                    self.entries().take(i as int),
                ).contains_key(id@),
                self.map_spec().contains_key(id@) ==> self.map_spec()[id@] == map_of(
                    self.entries().take(i as int),
                )[id@],
            decreases i,
        {
            proof {
                assert(self.entries().take(i as int).drop_last() =~= self.entries().take(i - 1));
                assert(self.entries().take(i as int).last() == self.entries()[i - 1]);
            }
            if text::vecs_eq(&self.nodes[i - 1].0, id) {
                return Some((&self.nodes[i - 1].1, &self.nodes[i - 1].2));
            }
            i -= 1;
        }
        proof {
            assert(self.entries().take(0) =~= Seq::<(Seq<char>, Seq<char>, Seq<char>)>::empty());
        }
        None
    }
}

/// The whole map agrees with the map of any prefix on keys the dropped
/// suffix does not name.
pub proof fn lemma_map_of_prefix(
    nodes: Seq<(Seq<char>, Seq<char>, Seq<char>)>,
    i: int,
    key: Seq<char>,
)
    requires
        0 <= i <= nodes.len(),
        forall|j: int| i <= j < nodes.len() ==> (#[trigger] nodes[j]).0 != key,
    ensures
        map_of(nodes).contains_key(key) <==> map_of(nodes.take(i)).contains_key(key),
        map_of(nodes).contains_key(key) ==> map_of(nodes)[key] == map_of(nodes.take(i))[key],
    decreases nodes.len() - i,
{
    if i < nodes.len() {
        assert(nodes.take(i + 1).drop_last() =~= nodes.take(i));
        assert(nodes.take(i + 1).last() == nodes[i]);
        lemma_map_of_prefix(nodes, i + 1, key);
        assert(nodes.take(nodes.len() as int) =~= nodes);
    } else {
        assert(nodes.take(i) =~= nodes);
    }
}

/// Parses the node lines: in each line, characters 0 to 2 name the node,
/// 7 to 9 its left successor, 12 to 14 its right successor.
#[verifier::loop_isolation(false)]
pub fn parse_tree(s: &str) -> (r: Tree)
    requires
        forall|k: int|
            0 <= k < text::split_lines(s@).len() ==> (#[trigger] text::split_lines(s@)[k]).len()
                >= 15,
    ensures
        r.entries() == Seq::new(
            text::split_lines(s@).len(),
            |k: int|
                (
                    text::split_lines(s@)[k].subrange(0, 3),
                    text::split_lines(s@)[k].subrange(7, 10),
                    text::split_lines(s@)[k].subrange(12, 15),
                ),
        ),
{
    let chars = text::str_chars(s);
    let lines = text::split_lines_exec(&chars);
    let ghost linesv = text::split_lines(s@);
    let n = lines.len();
    let mut nodes: Vec<(Vec<char>, Vec<char>, Vec<char>)> = Vec::new();
    let mut i: usize = 0;
    while i < n
        invariant
            i <= n,
            n == linesv.len(),
            nodes@.len() == i,
            forall|k: int|
                0 <= k < i ==> ((#[trigger] nodes@[k]).0@, nodes@[k].1@, nodes@[k].2@) == (
                    linesv[k].subrange(0, 3),
                    linesv[k].subrange(7, 10),
                    linesv[k].subrange(12, 15),
                ),
        decreases n - i,
    {
        proof {
            assert(lines@[i as int]@ == linesv[i as int]);
        }
        let id = text::subvec(&lines[i], 0, 3);
        let left = text::subvec(&lines[i], 7, 10);
        let right = text::subvec(&lines[i], 12, 15);
        nodes.push((id, left, right));
        i += 1;
    }
    let r = Tree { nodes };
    proof {
        assert(r.entries() =~~= Seq::new(
            linesv.len(),
            |k: int|
                (
                    linesv[k].subrange(0, 3),
                    linesv[k].subrange(7, 10),
                    linesv[k].subrange(12, 15),
                ),
        ));
    }
    r
}

// ---------------------------------------------------------------------------
// Walking the network
// ---------------------------------------------------------------------------

/// Whether every walker stands on a goal node (one whose name ends in
/// `Z`).
pub open spec fn all_done(nodes: Seq<Seq<char>>) -> bool {
    forall|k: int|
        0 <= k < nodes.len() ==> (#[trigger] nodes[k]).len() > 0 && nodes[k].last() == 'Z'
}

/// Every walker's node is in the map.
pub open spec fn all_in_map(m: Map<Seq<char>, (Seq<char>, Seq<char>)>, nodes: Seq<Seq<char>>) -> bool {
    forall|k: int| 0 <= k < nodes.len() ==> m.contains_key(#[trigger] nodes[k])
}

/// Every walker takes the instruction's branch at once.
pub open spec fn advance(
    m: Map<Seq<char>, (Seq<char>, Seq<char>)>,
    nodes: Seq<Seq<char>>,
    instr: Instruction,
) -> Seq<Seq<char>> {
    Seq::new(
        nodes.len(),
        |k: int|
            match instr {
                Instruction::Left => m[nodes[k]].0,
                Instruction::Right => m[nodes[k]].1,
            },
    )
}

/// The instruction used at step `t`: the stack is popped from its end and
/// restarted when it runs out.
pub open spec fn instr_at(stack: Seq<Instruction>, t: int) -> Instruction {
    stack[stack.len() - 1 - (t % (stack.len() as int))]
}

/// Where all walkers stand after `t` steps.
pub open spec fn state_at(
    m: Map<Seq<char>, (Seq<char>, Seq<char>)>,
    starts: Seq<Seq<char>>,
    stack: Seq<Instruction>,
    t: int,
) -> Seq<Seq<char>>
    decreases t,
{
    if t <= 0 {
        starts
    } else {
        advance(m, state_at(m, starts, stack, t - 1), instr_at(stack, t - 1))
    }
}

/// Walks every start node in lockstep, one instruction per step with the
/// instruction list cycled, until all walkers stand on nodes ending in
/// `Z`; returns the number of steps of the first such moment.
#[verifier::loop_isolation(false)]
pub fn follow_path(starts: Vec<Vec<char>>, tree: &Tree, stack: &Vec<Instruction>) -> (r: u64)
    requires
        stack@.len() > 0,
        exists|n: int|
            0 <= n <= u64::MAX && all_done(
                #[trigger] state_at(tree.map_spec(), starts.deep_view(), stack@, n),
            ) && forall|t: int|
                0 <= t < n ==> all_in_map(
                    tree.map_spec(),
                    #[trigger] state_at(tree.map_spec(), starts.deep_view(), stack@, t),
                ),
    ensures
        all_done(state_at(tree.map_spec(), starts.deep_view(), stack@, r as int)),
        forall|t: int|
            0 <= t < r as int ==> !all_done(
                #[trigger] state_at(tree.map_spec(), starts.deep_view(), stack@, t),
            ),
{
    let ghost m = tree.map_spec();
    let ghost sv = starts.deep_view();
    let ghost goal = choose|n: int|
        0 <= n <= u64::MAX && all_done(#[trigger] state_at(m, sv, stack@, n)) && forall|t: int|
            0 <= t < n ==> all_in_map(m, #[trigger] state_at(m, sv, stack@, t));
    let mut step_count: u64 = 0;
    let mut nodes = starts;
    let len = stack.len();
    loop
        invariant
            nodes.deep_view() == state_at(m, sv, stack@, step_count as int),
            step_count as int <= goal,
            step_count as int % len as int == 0,
            len == stack@.len(),
            forall|t: int| 0 <= t < step_count as int ==> !all_done(
                #[trigger] state_at(m, sv, stack@, t),
            ),
        decreases goal - step_count,
    {
        let mut s = stack.clone();
        let ghost base = step_count as int;
        loop
            invariant
                s@ =~= stack@.take(s@.len() as int),
                s@.len() <= len,
                len == stack@.len(),
                step_count as int == base + (len - s@.len()),
                base % len as int == 0,
                base <= step_count as int,
                step_count as int <= goal,
                nodes.deep_view() == state_at(m, sv, stack@, step_count as int),
                forall|t: int| 0 <= t < step_count as int ==> !all_done(
                    #[trigger] state_at(m, sv, stack@, t),
                ),
            decreases s@.len(),
        {
            let ghost slen = s@.len() as int;
            let next = match s.pop() {
                Some(x) => x,
                None => {
                    break;
                },
            };
            proof {
                assert(stack@.take(slen).last() == stack@[slen - 1]);
                assert(next == stack@[slen - 1]);
                assert(s@ =~= stack@.take(slen - 1));
            }
            // check whether every walker has arrived
            let ncount = nodes.len();
            let mut done = true;
            let mut k: usize = 0;
            while k < ncount
                invariant
                    k <= ncount,
                    ncount == nodes@.len(),
                    done == (forall|j: int|
                        0 <= j < k ==> (#[trigger] nodes.deep_view()[j]).len() > 0
                            && nodes.deep_view()[j].last() == 'Z'),
                decreases ncount - k,
            {
                let node = &nodes[k];
                let nl = node.len();
                let ok = nl > 0 && node[nl - 1] == 'Z';
                proof {
                    assert(nodes.deep_view()[k as int] == nodes@[k as int]@);
                }
                if !ok {
                    done = false;
                    proof {
                        assert(!((#[trigger] nodes.deep_view()[k as int]).len() > 0
                            && nodes.deep_view()[k as int].last() == 'Z'));
                    }
                    break;
                }
                k += 1;
            }
            if done {
                proof {
                    assert(all_done(nodes.deep_view()));
                }
                return step_count;
            }
            proof {
                assert(!all_done(nodes.deep_view()));
                assert((step_count as int) < goal) by {
                    if step_count as int == goal {
                        assert(all_done(state_at(m, sv, stack@, goal)));
                    }
                }
                assert(all_in_map(m, nodes.deep_view()));
                assert(instr_at(stack@, step_count as int) == next) by {
                    lemma_mod_multiples_vanish_general(step_count as int, base, len as int);
                    assert(0 <= step_count as int - base < len as int);
                    vstd::arithmetic::div_mod::lemma_small_mod(
                        (step_count - base) as nat,
                        len as nat,
                    );
                }
            }
            // advance every walker one step
            let mut new_nodes: Vec<Vec<char>> = Vec::new();
            let mut j: usize = 0;
            while j < ncount
                invariant
                    j <= ncount,
                    ncount == nodes@.len(),
                    all_in_map(m, nodes.deep_view()),
                    m == tree.map_spec(),
                    new_nodes.deep_view() =~= advance(
                        m,
                        nodes.deep_view(),
                        next,
                    ).take(j as int),
                decreases ncount - j,
            {
                proof {
                    assert(m.contains_key(nodes.deep_view()[j as int]));
                    assert(nodes@[j as int]@ == nodes.deep_view()[j as int]);
                }
                let branches = match tree.get(&nodes[j]) {
                    Some(p) => p,
                    None => {
                        proof {
                            assert(false);
                        }
                        unreached()
                    },
                };
                let chosen = match next {
                    Instruction::Left => branches.0.clone(),
                    Instruction::Right => branches.1.clone(),
                };
                proof {
                    if next == Instruction::Left {
                        assert(chosen@ =~= branches.0@);
                    } else {
                        assert(chosen@ =~= branches.1@);
                    }
                    assert(chosen@ == advance(m, nodes.deep_view(), next)[j as int]);
                }
                let ghost old_nn = new_nodes.deep_view();
                let ghost chosenv = chosen@;
                new_nodes.push(chosen);
                proof {
                    assert(new_nodes.deep_view() =~~= old_nn.push(chosenv));
                    assert(advance(m, nodes.deep_view(), next).take(j + 1) =~= advance(
                        m,
                        nodes.deep_view(),
                        next,
                    ).take(j as int).push(advance(m, nodes.deep_view(), next)[j as int]));
                    assert(new_nodes.deep_view() =~~= advance(m, nodes.deep_view(), next).take(
                        j + 1,
                    ));
                }
                j += 1;
            }
            proof {
                assert(advance(m, nodes.deep_view(), next).take(ncount as int) =~= advance(
                    m,
                    nodes.deep_view(),
                    next,
                ));
                assert(state_at(m, sv, stack@, step_count + 1) == advance(
                    m,
                    nodes.deep_view(),
                    next,
                ));
            }
            nodes = new_nodes;
            step_count = step_count + 1;
        }
        proof {
            assert(s@.len() == 0);
            assert(step_count as int == base + len);
            assert(step_count as int % len as int == 0) by {
                vstd::arithmetic::div_mod::lemma_mod_self_0(len as int);
                lemma_mod_multiples_vanish_general(step_count as int, len as int, len as int);
                assert((step_count as int - len as int) % (len as int) == base % (len as int));
            }
        }
    }
}

/// Subtracting a multiple of the divisor keeps the remainder: here, for
/// a base that is itself a multiple.
pub proof fn lemma_mod_multiples_vanish_general(x: int, base: int, d: int)
    requires
        d > 0,
        base % d == 0,
    ensures
        (x - base) % d == x % d,
{
    let q = base / d;
    assert(base == d * q) by {
        vstd::arithmetic::div_mod::lemma_fundamental_div_mod(base, d);
    }
    assert((x - d * q) % d == x % d) by {
        vstd::arithmetic::div_mod::lemma_mod_multiples_vanish(-q, x, d);
        assert(d * (-q) + x == x - d * q) by (nonlinear_arith);
    }
}

} // verus!
