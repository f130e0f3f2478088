//! Human-readable diagnostics: decimal rendering, the roster `trace`
//! line, and the indented candidate-tree diagram.
use vstd::prelude::*;
use crate::descriptor::WgslArray3Info;
use crate::roster::WalkEnd;

verus! {

/// The decimal digit character for one digit value.
pub open spec fn dec_digit(d: int) -> char {
    if d == 0 {
        '0'
    } else if d == 1 {
        '1'
    } else if d == 2 {
        '2'
    } else if d == 3 {
        '3'
    } else if d == 4 {
        '4'
    } else if d == 5 {
        '5'
    } else if d == 6 {
        '6'
    } else if d == 7 {
        '7'
    } else if d == 8 {
        '8'
    } else {
        '9'
    }
}

/// Decimal rendering of a nonnegative integer, most significant first.
pub open spec fn dec_nat(n: int) -> Seq<char>
    decreases n,
{
    if n < 10 {
        seq![dec_digit(n)]
    } else {
        dec_nat(n / 10).push(dec_digit(n % 10))
    }
}

/// Decimal rendering of an integer, with a leading minus when negative.
pub open spec fn dec_int(n: int) -> Seq<char> {
    if n < 0 {
        seq!['-'] + dec_nat(-n)
    } else {
        dec_nat(n)
    }
}

/// One decimal digit as a string slice.
fn digit_str(d: u32) -> (r: &'static str)
    requires
        d < 10,
    ensures
        r@ == seq![dec_digit(d as int)],
{
    proof {
        reveal_strlit("0");
        reveal_strlit("1");
        reveal_strlit("2");
        reveal_strlit("3");
        reveal_strlit("4");
        reveal_strlit("5");
        reveal_strlit("6");
        reveal_strlit("7");
        reveal_strlit("8");
        reveal_strlit("9");
    }
    if d == 0 {
        "0"
    } else if d == 1 {
        "1"
    } else if d == 2 {
        "2"
    } else if d == 3 {
        "3"
    } else if d == 4 {
        "4"
    } else if d == 5 {
        "5"
    } else if d == 6 {
        "6"
    } else if d == 7 {
        "7"
    } else if d == 8 {
        "8"
    } else {
        "9"
    }
}

/// Decimal rendering of a `u32`.
pub fn u32_dec(n: u32) -> (r: String)
    ensures
        r@ == dec_nat(n as int),
    decreases n,
{
    if n < 10 {
        String::from_str(digit_str(n))
    } else {
        let mut s = u32_dec(n / 10);
        s.append(digit_str(n % 10));
        s
    }
}

/// Decimal rendering of an `i32`.
pub fn i32_dec(v: i32) -> (r: String)
    ensures
        r@ == dec_int(v as int),
{
    if v >= 0 {
        u32_dec(v as u32)
    } else {
        proof {
            reveal_strlit("-");
        }
        let mut s = String::from_str("-");
        let magnitude = (-(v as i64)) as u32;
        s.append(u32_dec(magnitude).as_str());
        proof {
            assert(s@ =~= dec_int(v as int));
        }
        s
    }
}

/// `path` is exactly the chain of flat indices reached from `start` by
/// following `links[i]`, stopped at `-1` (`End`), at an index outside
/// the region (`Oob`), or at the first revisit (`Loop`).
pub open spec fn flat_walk_ok(links: Seq<i32>, start: int, path: Seq<usize>, end: WalkEnd) -> bool {
    &&& path.len() <= links.len()
    &&& (forall|p: int, q: int| 0 <= p < q < path.len() ==> path[p] != path[q])
    &&& (forall|p: int| 0 <= p < path.len() ==> (#[trigger] path[p]) < links.len())
    &&& (path.len() == 0 ==> (if start == -1 {
        end == WalkEnd::End
    } else {
        end == WalkEnd::Oob && !(0 <= start < links.len())
    }))
    &&& (path.len() > 0 ==> path[0] == start)
    &&& (forall|p: int|
        0 < p < path.len() ==> links[path[p - 1] as int] == (#[trigger] path[p]) as int)
    &&& (path.len() > 0 ==> ({
        let nx = links[path.last() as int] as int;
        match end {
            WalkEnd::End => nx == -1,
            WalkEnd::Oob => nx != -1 && !(0 <= nx < links.len()),
            WalkEnd::Loop => path.contains(nx as usize),
        }
    }))
}

/// Follow `links` from flat index `start`, bounded by the region size.
pub fn trace_path(links: &[i32], start: i32) -> (r: (Vec<usize>, WalkEnd))
    ensures
        flat_walk_ok(links@, start as int, r.0@, r.1),
{
    let n = links.len();
    let mut visited: Vec<bool> = Vec::new();
    let mut i: usize = 0;
    while i < n
        invariant
            i <= n,
            visited@.len() == i,
            forall|s: int| 0 <= s < i ==> visited@[s] == false,
        decreases n - i,
    {
        visited.push(false);
        i = i + 1;
    }
    let mut path: Vec<usize> = Vec::new();
    let mut cur: i32 = start;
    let ghost seen = Set::<int>::empty();
    loop
        invariant
            n == links@.len(),
            visited@.len() == n,
            path@.len() == seen.len(),
            seen.finite(),
            seen.subset_of(vstd::set_lib::set_int_range(0, n as int)),
            forall|s: int| 0 <= s < n ==> (visited@[s] <==> seen.contains(s)),
            forall|s: int| seen.contains(s) ==> path@.contains(s as usize),
            forall|p: int| 0 <= p < path@.len() ==> seen.contains((#[trigger] path@[p]) as int),
            forall|p: int, q: int| 0 <= p < q < path@.len() ==> path@[p] != path@[q],
            forall|p: int| 0 <= p < path@.len() ==> (#[trigger] path@[p]) < n,
            path@.len() == 0 ==> cur == start,
            path@.len() > 0 ==> path@[0] == start && 0 <= start < n,
            path@.len() > 0 ==> links@[path@.last() as int] == cur,
            forall|p: int|
                0 < p < path@.len() ==> links@[path@[p - 1] as int] == (#[trigger] path@[p]) as int,
        decreases links@.len() - path@.len(),
    {
        proof {
            vstd::set_lib::lemma_int_range(0, n as int);
            vstd::set_lib::lemma_len_subset(seen, vstd::set_lib::set_int_range(0, n as int));
        }
        if cur == -1 {
            return (path, WalkEnd::End);
        }
        if cur < 0 {
            return (path, WalkEnd::Oob);
        }
        let c = cur as usize;
        if c >= n {
            return (path, WalkEnd::Oob);
        }
        if visited[c] {
            proof {
                assert(seen.contains(c as int));
                assert(path@.contains(c));
            }
            return (path, WalkEnd::Loop);
        }
        proof {
            assert(!seen.contains(c as int));
            assert(seen.insert(c as int).len() == seen.len() + 1);
            vstd::set_lib::lemma_len_subset(
                seen.insert(c as int),
                vstd::set_lib::set_int_range(0, n as int),
            );
        }
        let ghost old_path = path@;
        visited[c] = true;
        path.push(c);
        proof {
            seen = seen.insert(c as int);
            assert(path@.last() == c);
            assert(path@.contains(c));
            assert forall|s: int| seen.contains(s) implies path@.contains(s as usize) by {
                if s != c as int {
                    assert(old_path.contains(s as usize));
                    let p = choose|p: int| 0 <= p < old_path.len() && old_path[p] == s as usize;
                    assert(path@[p] == s as usize);
                }
            }
        }
        cur = links[c];
    }
}

/// The closing word of a trace line.
pub open spec fn end_word(end: WalkEnd) -> Seq<char> {
    match end {
        WalkEnd::End => seq!['e', 'n', 'd'],
        WalkEnd::Oob => seq!['o', 'o', 'b'],
        WalkEnd::Loop => seq!['l', 'o', 'o', 'p'],
    }
}

/// One step of a trace line: the slot's row, column and voxel
/// coordinates under the roster descriptor, then an arrow.
pub open spec fn trace_step(info: WgslArray3Info, idx: int) -> Seq<char> {
    seq!['r'] + dec_nat(idx / info.row_strides as int) + seq!['c'] + dec_nat(
        (idx % info.row_strides as int) / info.col_strides as int,
    ) + seq!['v'] + dec_nat((idx % info.col_strides as int) / info.vox_strides as int) + seq![
        ' ',
        '-',
        '>',
        ' ',
    ]
}

pub open spec fn render_steps(info: WgslArray3Info, path: Seq<usize>) -> Seq<char>
    decreases path.len(),
{
    if path.len() == 0 {
        Seq::empty()
    } else {
        trace_step(info, path[0] as int) + render_steps(info, path.drop_first())
    }
}

/// The whole trace line: every visited slot's coordinates, then how the
/// walk ended.
pub open spec fn render_trace(info: WgslArray3Info, path: Seq<usize>, end: WalkEnd) -> Seq<char> {
    render_steps(info, path) + end_word(end)
}

proof fn lemma_render_steps_snoc(info: WgslArray3Info, path: Seq<usize>, x: usize)
    ensures
        render_steps(info, path.push(x)) == render_steps(info, path) + trace_step(info, x as int),
    decreases path.len(),
{
    if path.len() == 0 {
        assert(path.push(x).drop_first() =~= Seq::<usize>::empty());
        assert(render_steps(info, Seq::<usize>::empty()) == Seq::<char>::empty());
        assert(render_steps(info, path.push(x)) =~= render_steps(info, path) + trace_step(
            info,
            x as int,
        ));
    } else {
        assert(path.push(x).drop_first() =~= path.drop_first().push(x));
        lemma_render_steps_snoc(info, path.drop_first(), x);
        assert(render_steps(info, path.push(x)) =~= render_steps(info, path) + trace_step(
            info,
            x as int,
        ));
    }
}

/// Follow a roster list from flat index `start` and render each visited
/// slot's coordinates, ending in `end`, `oob` or `loop`.
pub fn trace(link_info: &WgslArray3Info, start: i32, links: &[i32]) -> (r: String)
    requires
        link_info.row_strides >= 1,
        link_info.col_strides >= 1,
        link_info.vox_strides >= 1,
        links@.len() <= u32::MAX,
    ensures
        exists|path: Seq<usize>, end: WalkEnd|
            #[trigger] flat_walk_ok(links@, start as int, path, end) && r@ == render_trace(
                *link_info,
                path,
                end,
            ),
{
    proof {
        reveal_strlit("r");
        reveal_strlit("c");
        reveal_strlit("v");
        reveal_strlit(" -> ");
        reveal_strlit("end");
        reveal_strlit("oob");
        reveal_strlit("loop");
    }
    let (path, end) = trace_path(links, start);
    let mut s = String::new();
    let mut i: usize = 0;
    while i < path.len()
        invariant
            i <= path@.len(),
            links@.len() <= u32::MAX,
            link_info.row_strides >= 1,
            link_info.col_strides >= 1,
            link_info.vox_strides >= 1,
            forall|p: int| 0 <= p < path@.len() ==> (#[trigger] path@[p]) < links@.len(),
            s@ == render_steps(*link_info, path@.subrange(0, i as int)),
        decreases path@.len() - i,
    {
        let idx = path[i] as u32;
        s.append("r");
        s.append(u32_dec(idx / link_info.row_strides).as_str());
        s.append("c");
        s.append(u32_dec((idx % link_info.row_strides) / link_info.col_strides).as_str());
        s.append("v");
        s.append(u32_dec((idx % link_info.col_strides) / link_info.vox_strides).as_str());
        s.append(" -> ");
        proof {
            reveal_strlit("r");
            reveal_strlit("c");
            reveal_strlit("v");
            reveal_strlit(" -> ");
            lemma_render_steps_snoc(*link_info, path@.subrange(0, i as int), path@[i as int]);
            assert(path@.subrange(0, i + 1) =~= path@.subrange(0, i as int).push(path@[i as int]));
            assert(s@ =~= render_steps(*link_info, path@.subrange(0, i + 1)));
        }
        i = i + 1;
    }
    match end {
        WalkEnd::End => s.append("end"),
        WalkEnd::Oob => s.append("oob"),
        WalkEnd::Loop => s.append("loop"),
    }
    proof {
        reveal_strlit("end");
        reveal_strlit("oob");
        reveal_strlit("loop");
        assert(path@.subrange(0, path@.len() as int) =~= path@);
        assert(s@ =~= render_trace(*link_info, path@, end));
        assert(flat_walk_ok(links@, start as int, path@, end) && s@ == render_trace(
            *link_info,
            path@,
            end,
        ));
    }
    s
}

/// Remainder with truncation toward zero, as the host's signed
/// remainder computes it.
pub open spec fn trunc_mod(a: int, p: int) -> int {
    if a >= 0 {
        a % p
    } else {
        -((-a) % p)
    }
}

fn mod_trunc_i32(a: i32, p: i32) -> (r: i32)
    requires
        p >= 1,
    ensures
        r == trunc_mod(a as int, p as int),
{
    if a >= 0 {
        a % p
    } else {
        let m = ((-(a as i64)) % (p as i64)) as i32;
        -m
    }
}

/// The one line printed for a tree node: its slot, parent and height
/// columns, and the neighbor it carries modulo the point count.
pub open spec fn node_line(knn: Seq<i32>, avl: Seq<i32>, points: int, i: int, sym: char) -> Seq<
    char,
> {
    seq![sym, '('] + dec_nat(i) + seq!['^'] + dec_int(avl[4 * i + 3] as int) + seq!['h'] + dec_int(
        avl[4 * i] as int,
    ) + seq![')', ' '] + dec_int(trunc_mod(knn[i] as int, points)) + seq!['\n']
}

/// The indented diagram of the subtree a shape spans: `trimmed` and
/// `postfix` decorate this node's line, `base` prefixes the children.
pub open spec fn render_shape(
    knn: Seq<i32>,
    avl: Seq<i32>,
    points: int,
    s: crate::codec::Shape,
    trimmed: Seq<char>,
    postfix: Seq<char>,
    base: Seq<char>,
) -> Seq<char>
    decreases s,
{
    match s {
        crate::codec::Shape::Tip => Seq::empty(),
        crate::codec::Shape::Fork(l, i, r) => {
            if crate::codec::shape_root(*l) == -1 && crate::codec::shape_root(*r) == -1 {
                trimmed + postfix + node_line(knn, avl, points, i as int, '\u{2500}')
            } else {
                trimmed + postfix + node_line(knn, avl, points, i as int, '\u{252C}')
                    + render_shape(
                    knn,
                    avl,
                    points,
                    *l,
                    base,
                    seq!['\u{251C}'],
                    base + seq!['\u{2502}'],
                ) + render_shape(
                    knn,
                    avl,
                    points,
                    *r,
                    base,
                    seq!['\u{2514}'],
                    base + seq!['\u{2007}'],
                )
            }
        },
    }
}

/// The text of one node's line, after its indentation.
fn node_text(knn: &[i32], avl: &[i32], points: i32, node: i32, fork: bool) -> (r: String)
    requires
        avl@.len() == 4 * knn@.len(),
        knn@.len() < i32::MAX,
        points >= 1,
        0 <= node < knn@.len(),
    ensures
        r@ == node_line(knn@, avl@, points as int, node as int, if fork {
            '\u{252C}'
        } else {
            '\u{2500}'
        }),
{
    let i = node as usize;
    let n = avl.len();
    proof {
        assert(4 * i + 3 < n);
    }
    let h = avl[4 * i];
    let u = avl[4 * i + 3];
    let shown = mod_trunc_i32(knn[i], points);
    let mut line = if fork {
        String::from_str("\u{252C}(")
    } else {
        String::from_str("\u{2500}(")
    };
    line.append(u32_dec(node as u32).as_str());
    line.append("^");
    line.append(i32_dec(u).as_str());
    line.append("h");
    line.append(i32_dec(h).as_str());
    line.append(") ");
    line.append(i32_dec(shown).as_str());
    line.append("\n");
    proof {
        reveal_strlit("\u{2500}(");
        reveal_strlit("\u{252C}(");
        reveal_strlit("^");
        reveal_strlit("h");
        reveal_strlit(") ");
        reveal_strlit("\n");
        assert(line@ =~= node_line(knn@, avl@, points as int, node as int, if fork {
            '\u{252C}'
        } else {
            '\u{2500}'
        }));
    }
    line
}

/// Render the subtree at `node`, guided by the shape it encodes.
fn walk_shape(
    knn: &[i32],
    avl: &[i32],
    points: i32,
    node: i32,
    trimmed: &str,
    postfix: &str,
    base: &str,
    Ghost(parent): Ghost<int>,
    Ghost(s): Ghost<crate::codec::Shape>,
) -> (r: String)
    requires
        avl@.len() == 4 * knn@.len(),
        knn@.len() < i32::MAX,
        points >= 1,
        crate::codec::represents(avl@, knn@.len() as int, node as int, parent, s),
    ensures
        r@ == render_shape(knn@, avl@, points as int, s, trimmed@, postfix@, base@),
    decreases s,
{
    if node == -1 {
        proof {
            assert(s is Tip);
        }
        String::new()
    } else {
        proof {
            assert(s is Fork);
        }
        let i = node as usize;
        let n = avl.len();
        proof {
            assert(4 * i + 3 < n);
        }
        let lch = avl[4 * i + 1];
        let rch = avl[4 * i + 2];
        let mut line = String::from_str(trimmed);
        line.append(postfix);
        proof {
            assert(crate::codec::shape_root(*s->Fork_0) == lch as int);
            assert(crate::codec::shape_root(*s->Fork_2) == rch as int);
        }
        if lch == -1 && rch == -1 {
            let text = node_text(knn, avl, points, node, false);
            line.append(text.as_str());
            proof {
                assert(line@ =~= trimmed@ + postfix@ + node_line(
                    knn@,
                    avl@,
                    points as int,
                    i as int,
                    '\u{2500}',
                ));
            }
            line
        } else {
            let text = node_text(knn, avl, points, node, true);
            line.append(text.as_str());
            let mut lbase = String::from_str(base);
            lbase.append("\u{2502}");
            let mut rbase = String::from_str(base);
            rbase.append("\u{2007}");
            let left_part = walk_shape(
                knn,
                avl,
                points,
                lch,
                base,
                "\u{251C}",
                lbase.as_str(),
                Ghost(i as int),
                Ghost(*s->Fork_0),
            );
            let right_part = walk_shape(
                knn,
                avl,
                points,
                rch,
                base,
                "\u{2514}",
                rbase.as_str(),
                Ghost(i as int),
                Ghost(*s->Fork_2),
            );
            line.append(left_part.as_str());
            line.append(right_part.as_str());
            proof {
                reveal_strlit("\u{2502}");
                reveal_strlit("\u{2007}");
                reveal_strlit("\u{251C}");
                reveal_strlit("\u{2514}");
                assert("\u{251C}"@ =~= seq!['\u{251C}']);
                assert("\u{2514}"@ =~= seq!['\u{2514}']);
                assert(lbase@ =~= base@ + seq!['\u{2502}']);
                assert(rbase@ =~= base@ + seq!['\u{2007}']);
                assert(left_part@ == render_shape(
                    knn@,
                    avl@,
                    points as int,
                    *s->Fork_0,
                    base@,
                    seq!['\u{251C}'],
                    base@ + seq!['\u{2502}'],
                ));
                assert(right_part@ == render_shape(
                    knn@,
                    avl@,
                    points as int,
                    *s->Fork_2,
                    base@,
                    seq!['\u{2514}'],
                    base@ + seq!['\u{2007}'],
                ));
                assert(line@ =~= trimmed@ + postfix@ + node_line(
                    knn@,
                    avl@,
                    points as int,
                    i as int,
                    '\u{252C}',
                ) + left_part@ + right_part@);
            }
            line
        }
    }
}

/// Render a point's candidate tree as an indented diagram, one line per
/// node: slot, parent, height, and the carried neighbor modulo the
/// point count. Fails exactly when no shape is encoded at `node`.
pub fn walk(knn: &[i32], avl: &[i32], points: i32, strides: usize, node: i32) -> (r: Result<
    String,
    crate::Fault,
>)
    requires
        strides == 4,
        avl@.len() == 4 * knn@.len(),
        knn@.len() < i32::MAX,
        points >= 1,
    ensures
        match r {
            Ok(out) => exists|s: crate::codec::Shape|
                #[trigger] crate::codec::represents(
                    avl@,
                    knn@.len() as int,
                    node as int,
                    -1,
                    s,
                ) && out@ == render_shape(
                    knn@,
                    avl@,
                    points as int,
                    s,
                    Seq::empty(),
                    Seq::empty(),
                    Seq::empty(),
                ),
            Err(_) => forall|s: crate::codec::Shape|
                !(#[trigger] crate::codec::represents(avl@, knn@.len() as int, node as int, -1, s)),
        },
{
    let k = knn.len();
    let gs = match crate::codec::decode_node(avl, k, node, -1, k) {
        Ok(p) => p.1,
        Err(f) => {
            proof {
                assert forall|s: crate::codec::Shape| !(#[trigger] crate::codec::represents(
                    avl@,
                    knn@.len() as int,
                    node as int,
                    -1,
                    s,
                )) by {
                    if crate::codec::represents(avl@, knn@.len() as int, node as int, -1, s) {
                        crate::codec::lemma_represents_height_le(
                            avl@,
                            knn@.len() as int,
                            node as int,
                            -1,
                            s,
                        );
                    }
                }
            }
            return Err(f);
        },
    };
    let out = walk_shape(knn, avl, points, node, "", "", "", Ghost(-1), Ghost(gs@));
    proof {
        reveal_strlit("");
        assert(""@ =~= Seq::<char>::empty());
        assert(out@ == render_shape(
            knn@,
            avl@,
            points as int,
            gs@,
            Seq::empty(),
            Seq::empty(),
            Seq::empty(),
        ));
    }
    Ok(out)
}

} // verus!
