use vstd::prelude::*;
use crate::ast::{Block, BlockKind, BoxBlock, List, ListItem, Label, span_in, block_in, blocks_in, item_in, label_in, attrs_in};
use crate::span::Span;
use crate::source_map::{Range, SourceMap};

verus! {

/// The number of blocks in a block, counting nested ones.
pub open spec fn block_size(b: Block) -> nat
    decreases b,
{
    1 + match b.kind {
        BlockKind::Section { children, .. } => blocks_size(children@),
        BlockKind::BlockQuote { blocks } => blocks_size(blocks@),
        BlockKind::Box(bx) => blocks_size(bx.blocks@),
        BlockKind::List(l) => items_size(l.items@),
        _ => 0,
    }
}

pub open spec fn blocks_size(s: Seq<Block>) -> nat
    decreases s,
{
    if s.len() == 0 {
        0
    } else {
        block_size(s[0]) + blocks_size(s.drop_first())
    }
}

pub open spec fn items_size(s: Seq<ListItem>) -> nat
    decreases s,
{
    if s.len() == 0 {
        0
    } else {
        blocks_size(s[0].blocks@) + items_size(s.drop_first())
    }
}

proof fn lemma_blocks_in_drop_first(s: Seq<Block>, len: nat)
    requires
        blocks_in(s, len),
        s.len() > 0,
    ensures
        blocks_in(s.drop_first(), len),
        block_in(s[0], len),
{
    assert forall|k: int| 0 <= k < s.len() - 1 implies block_in(#[trigger] s.drop_first()[k], len) by {
        assert(s.drop_first()[k] == s[k + 1]);
    }
}

proof fn lemma_blocks_in_push(s: Seq<Block>, b: Block, len: nat)
    requires
        blocks_in(s, len),
        block_in(b, len),
    ensures
        blocks_in(s.push(b), len),
{
    assert forall|k: int| 0 <= k < s.len() + 1 implies block_in(#[trigger] s.push(b)[k], len) by {
        if k < s.len() {
            assert(s.push(b)[k] == s[k]);
        }
    }
}

/// Appending a block adds its size.
proof fn lemma_blocks_size_push(s: Seq<Block>, b: Block)
    ensures
        blocks_size(s.push(b)) == blocks_size(s) + block_size(b),
    decreases s.len(),
{
    if s.len() > 0 {
        assert(s.push(b).drop_first() =~= s.drop_first().push(b));
        assert(s.push(b)[0] == s[0]);
        lemma_blocks_size_push(s.drop_first(), b);
    } else {
        assert(s.push(b).drop_first() =~= Seq::<Block>::empty());
        assert(s.push(b)[0] == b);
        assert(blocks_size(Seq::<Block>::empty()) == 0);
    }
}

/// Appending an item adds the size of its blocks.
proof fn lemma_items_size_push(s: Seq<ListItem>, it: ListItem)
    ensures
        items_size(s.push(it)) == items_size(s) + blocks_size(it.blocks@),
    decreases s.len(),
{
    if s.len() > 0 {
        assert(s.push(it).drop_first() =~= s.drop_first().push(it));
        assert(s.push(it)[0] == s[0]);
        lemma_items_size_push(s.drop_first(), it);
    } else {
        assert(s.push(it).drop_first() =~= Seq::<ListItem>::empty());
        assert(s.push(it)[0] == it);
        assert(items_size(Seq::<ListItem>::empty()) == 0);
    }
}

proof fn lemma_grouped_push(s: Seq<Block>, b: Block)
    requires
        grouped(s),
        grouped_one(b),
    ensures
        grouped(s.push(b)),
{
    assert forall|k: int| 0 <= k < s.len() + 1 implies grouped_one(#[trigger] s.push(b)[k]) by {
        if k < s.len() {
            assert(s.push(b)[k] == s[k]);
        }
    }
}

/// The heading level of a heading block.
pub fn heading_level(block: &Block) -> (r: Option<u8>)
    ensures
        r matches Some(l) ==> block.kind matches BlockKind::Heading { level, .. } && level == l,
        r is None ==> !(block.kind is Heading),
{
    if let BlockKind::Heading { level, .. } = &block.kind {
        Some(*level)
    } else {
        None
    }
}

fn copy_label(l: &Label) -> (r: Label)
    ensures
        r.span == l.span,
        r.name@ == l.name@,
{
    Label { name: l.name.clone(), span: l.span }
}

/// No block is a section (as in what the parser gives).
pub open spec fn no_sections(bs: Seq<Block>) -> bool {
    forall|i: int| 0 <= i < bs.len() ==> !((#[trigger] bs[i]).kind is Section)
}

/// Every section is of a level above `s`.
pub open spec fn sections_above(bs: Seq<Block>, s: u8) -> bool {
    forall|i: int| 0 <= i < bs.len() ==> ((#[trigger] bs[i]).kind matches BlockKind::Section { level, .. } ==> level > s)
}

/// No heading is left: each has become a section, whose nested sections (directly among its
/// children) are of deeper levels, and so on within them.
pub open spec fn grouped(bs: Seq<Block>) -> bool
    decreases bs,
{
    forall|i: int| 0 <= i < bs.len() ==> grouped_one(#[trigger] bs[i])
}

pub open spec fn grouped_one(b: Block) -> bool
    decreases b,
{
    match b.kind {
        BlockKind::Heading { .. } => false,
        BlockKind::Section { level, children, .. } => grouped(children@) && sections_above(children@, level),
        _ => true,
    }
}

/// What grouping keeps of a block at its own level: its heading level, when it is a heading
/// or the section made from one, and where it starts.
pub open spec fn shape_key(b: Block) -> (Option<u8>, usize) {
    match b.kind {
        BlockKind::Heading { level, .. } => (Some(level), b.span.start),
        BlockKind::Section { level, .. } => (Some(level), b.span.start),
        _ => (None, b.span.start),
    }
}

/// The keys of blocks in order, each section followed by those of its children: the order of
/// blocks and headings, which grouping into sections leaves as it was.
pub open spec fn outline(bs: Seq<Block>) -> Seq<(Option<u8>, usize)>
    decreases bs,
{
    if bs.len() == 0 {
        Seq::empty()
    } else {
        outline(bs.drop_last()) + outline_one(bs.last())
    }
}

pub open spec fn outline_one(b: Block) -> Seq<(Option<u8>, usize)>
    decreases b,
{
    match b.kind {
        BlockKind::Section { children, .. } => seq![shape_key(b)] + outline(children@),
        _ => seq![shape_key(b)],
    }
}

/// Side by side, a section is followed only by a section of the same or a higher level (a
/// section takes everything up to the next such heading); and so within each section.
pub open spec fn sections_closed(bs: Seq<Block>) -> bool
    decreases bs,
{
    &&& forall|i: int| 0 <= i < bs.len() - 1 ==> section_then(#[trigger] bs[i], bs[i + 1])
    &&& forall|i: int| 0 <= i < bs.len() ==> closed_one(#[trigger] bs[i])
}

pub open spec fn closed_one(b: Block) -> bool
    decreases b,
{
    match b.kind {
        BlockKind::Section { children, .. } => sections_closed(children@),
        _ => true,
    }
}

/// `b` may follow `a` among blocks side by side: after a section comes only a section of the
/// same or a higher level.
pub open spec fn section_then(a: Block, b: Block) -> bool {
    match a.kind {
        BlockKind::Section { level, .. } => match b.kind {
            BlockKind::Section { level: next, .. } => next <= level,
            _ => false,
        },
        _ => true,
    }
}

/// What may stand after `out` for it to stay closed: nothing, or a heading of a level no
/// deeper than a section that ends `out`.
pub open spec fn may_follow(out: Seq<Block>, rest: Seq<Block>) -> bool {
    out.len() > 0 && rest.len() > 0 ==> (match out.last().kind {
        BlockKind::Section { level, .. } => match rest[0].kind {
            BlockKind::Heading { level: next, .. } => next <= level,
            _ => false,
        },
        _ => true,
    })
}

/// The outline of blocks, read from the front.
proof fn lemma_outline_front(s: Seq<Block>)
    requires
        s.len() > 0,
    ensures
        outline(s) == outline_one(s[0]) + outline(s.drop_first()),
    decreases s.len(),
{
    if s.len() == 1 {
        assert(s.drop_first() =~= Seq::<Block>::empty());
        assert(s.drop_last() =~= Seq::<Block>::empty());
        assert(outline(s) =~= outline_one(s[0]) + outline(s.drop_first()));
    } else {
        lemma_outline_front(s.drop_last());
        assert(s.drop_last().drop_first() =~= s.drop_first().drop_last());
        assert(s.drop_last()[0] == s[0]);
        assert(s.drop_first().last() == s.last());
        assert(outline(s) =~= outline_one(s[0]) + outline(s.drop_first()));
    }
}

/// Pushing a block that may follow keeps blocks closed.
proof fn lemma_closed_push(s: Seq<Block>, b: Block)
    requires
        sections_closed(s),
        closed_one(b),
        s.len() > 0 ==> section_then(s.last(), b),
    ensures
        sections_closed(s.push(b)),
{
    assert forall|k: int| 0 <= k < s.push(b).len() - 1 implies section_then(#[trigger] s.push(b)[k], s.push(b)[k + 1]) by {
        assert(s.push(b)[k] == s[k]);
        if k + 1 < s.len() {
            assert(s.push(b)[k + 1] == s[k + 1]);
        }
    }
    assert forall|k: int| 0 <= k < s.push(b).len() implies closed_one(#[trigger] s.push(b)[k]) by {
        if k < s.len() {
            assert(s.push(b)[k] == s[k]);
        }
    }
}

/// `a` has the frame of `b`: the same key, a heading or a section just when `b` is, and, for
/// a section, children with the frames of `b`'s. Passes that only rewrite inline content keep
/// frames.
pub open spec fn same_frame(a: Block, b: Block) -> bool
    decreases a,
{
    &&& shape_key(a) == shape_key(b)
    &&& (a.kind is Heading <==> b.kind is Heading)
    &&& match a.kind {
        BlockKind::Section { children: ca, .. } => match b.kind {
            BlockKind::Section { children: cb, .. } => same_frames(ca@, cb@),
            _ => false,
        },
        _ => !(b.kind is Section),
    }
}

/// Blocks with the frames of `b`'s, place by place.
pub open spec fn same_frames(a: Seq<Block>, b: Seq<Block>) -> bool
    decreases a,
{
    a.len() == b.len() && forall|j: int| 0 <= j < a.len() ==> same_frame(#[trigger] a[j], b[j])
}

/// Blocks with the same frames have the same outline.
pub proof fn lemma_frames_outline(a: Seq<Block>, b: Seq<Block>)
    requires
        same_frames(a, b),
    ensures
        outline(a) == outline(b),
    decreases a,
{
    if a.len() > 0 {
        assert(same_frame(a[a.len() - 1], b[b.len() - 1]));
        lemma_frame_outline(a.last(), b.last());
        assert forall|j: int| 0 <= j < a.drop_last().len() implies same_frame(#[trigger] a.drop_last()[j], b.drop_last()[j]) by {
            assert(same_frame(a[j], b[j]));
        }
        lemma_frames_outline(a.drop_last(), b.drop_last());
    }
}

pub proof fn lemma_frame_outline(x: Block, y: Block)
    requires
        same_frame(x, y),
    ensures
        outline_one(x) == outline_one(y),
    decreases x,
{
    match x.kind {
        BlockKind::Section { children: cx, .. } => match y.kind {
            BlockKind::Section { children: cy, .. } => lemma_frames_outline(cx@, cy@),
            _ => {},
        },
        _ => {},
    }
}

/// Blocks with the frames of grouped, closed blocks are grouped and closed, and have sections
/// where those have them.
pub proof fn lemma_frames_closed(a: Seq<Block>, b: Seq<Block>)
    requires
        same_frames(a, b),
    ensures
        sections_closed(b) ==> sections_closed(a),
        grouped(b) ==> grouped(a),
        no_sections(b) ==> no_sections(a),
        forall|s: u8| sections_above(b, s) ==> sections_above(a, s),
    decreases a,
{
    assert forall|j: int| 0 <= j < a.len() implies (closed_one(b[j]) ==> closed_one(#[trigger] a[j])) && (
    grouped_one(b[j]) ==> grouped_one(a[j])) by {
        assert(same_frame(a[j], b[j]));
        lemma_frame_closed(a[j], b[j]);
    }
    if sections_closed(b) {
        assert forall|j: int| 0 <= j < a.len() - 1 implies section_then(#[trigger] a[j], a[j + 1]) by {
            assert(same_frame(a[j], b[j]));
            assert(same_frame(a[j + 1], b[j + 1]));
            assert(section_then(b[j], b[j + 1]));
        }
    }
    assert forall|s: u8| sections_above(b, s) implies sections_above(a, s) by {
        assert forall|j: int| 0 <= j < a.len() implies ((#[trigger] a[j]).kind matches BlockKind::Section {
            level,
            ..
        } ==> level > s) by {
            assert(same_frame(a[j], b[j]));
        }
    }
    if no_sections(b) {
        assert forall|j: int| 0 <= j < a.len() implies !((#[trigger] a[j]).kind is Section) by {
            assert(same_frame(a[j], b[j]));
        }
    }
}

pub proof fn lemma_frame_closed(x: Block, y: Block)
    requires
        same_frame(x, y),
    ensures
        closed_one(y) ==> closed_one(x),
        grouped_one(y) ==> grouped_one(x),
    decreases x,
{
    match x.kind {
        BlockKind::Section { children: cx, level, .. } => match y.kind {
            BlockKind::Section { children: cy, .. } => {
                lemma_frames_closed(cx@, cy@);
            },
            _ => {},
        },
        _ => {},
    }
}

/// Every span of `b` lies in any text that holds every span of `a`.
pub open spec fn spans_kept(a: Seq<Block>, b: Seq<Block>) -> bool {
    forall|len: nat| #[trigger] blocks_in(a, len) ==> blocks_in(b, len)
}

/// Groups the blocks into sections: a heading takes the blocks after it, up to the next
/// heading of the same or a higher level, as its children; nested blocks are grouped too.
/// For blocks without sections this is stated whole: the outline (blocks and headings in
/// order, each with its start) is unchanged; no heading is left and the sections within a
/// section are deeper (`grouped`); and after a section, side by side, comes only a section of
/// the same or a higher level (`sections_closed`). Whatever text holds every span of the
/// blocks holds every span of the result.
pub fn build_sections(blocks: Vec<Block>) -> (r: Vec<Block>)
    ensures
        spans_kept(blocks@, r@),
        no_sections(blocks@) ==> grouped(r@),
        no_sections(blocks@) ==> outline(r@) == outline(blocks@),
        no_sections(blocks@) ==> sections_closed(r@),
        blocks_size(r@) == blocks_size(blocks@),
    decreases blocks_size(blocks@), 2nat,
{
    let mut rest = blocks;
    let r = build_level(&mut rest, None);
    assert(blocks_size(rest@) == 0);
    proof {
        assert(outline(rest@) =~= Seq::<(Option<u8>, usize)>::empty());
        assert(outline(r@) + outline(rest@) =~= outline(r@));
    }
    r
}

/// Takes blocks from the front of `rest` up to a heading of level `stop` or higher (all of
/// them when there is no `stop`), grouping them into sections.
fn build_level(rest: &mut Vec<Block>, stop: Option<u8>) -> (r: Vec<Block>)
    ensures
        spans_kept(old(rest)@, r@),
        spans_kept(old(rest)@, final(rest)@),
        blocks_size(final(rest)@) <= blocks_size(old(rest)@),
        blocks_size(old(rest)@) == blocks_size(r@) + blocks_size(final(rest)@),
        stop is None ==> final(rest)@.len() == 0,
        no_sections(old(rest)@) ==> grouped(r@) && no_sections(final(rest)@) && (stop matches Some(s)
            ==> sections_above(r@, s)),
        no_sections(old(rest)@) ==> outline(r@) + outline(final(rest)@) == outline(old(rest)@),
        no_sections(old(rest)@) ==> sections_closed(r@),
        stop matches Some(s) ==> (final(rest)@.len() > 0 ==> (final(rest)@[0].kind matches BlockKind::Heading {
            level,
            ..
        } && level <= s)),
    decreases blocks_size(old(rest)@), 1nat,
{
    let ghost orig = rest@;
    let mut out: Vec<Block> = Vec::new();
    proof {
        assert(outline(out@) + outline(rest@) =~= outline(orig));
    }
    while rest.len() > 0
        invariant
            no_sections(orig) ==> outline(out@) + outline(rest@) == outline(orig) && sections_closed(out@)
                && may_follow(out@, rest@),
            spans_kept(orig, rest@),
            spans_kept(orig, out@),
            blocks_size(rest@) <= blocks_size(old(rest)@),
            blocks_size(orig) == blocks_size(out@) + blocks_size(rest@),
            orig == old(rest)@,
            no_sections(orig) ==> grouped(out@) && no_sections(rest@) && (stop matches Some(s)
                ==> sections_above(out@, s)),
        ensures
            no_sections(orig) ==> outline(out@) + outline(rest@) == outline(orig) && sections_closed(out@),
            stop matches Some(s) ==> (rest@.len() > 0 ==> (rest@[0].kind matches BlockKind::Heading {
                level,
                ..
            } && level <= s)),
            spans_kept(orig, rest@),
            spans_kept(orig, out@),
            blocks_size(rest@) <= blocks_size(old(rest)@),
            blocks_size(orig) == blocks_size(out@) + blocks_size(rest@),
            orig == old(rest)@,
            no_sections(orig) ==> grouped(out@) && no_sections(rest@) && (stop matches Some(s)
                ==> sections_above(out@, s)),
            stop is None ==> rest@.len() == 0,
        decreases blocks_size(rest@),
    {
        if let Some(next_level) = heading_level(&rest[0]) {
            if let Some(s) = stop {
                if next_level <= s {
                    break;
                }
            }
        }
        proof {
            assert(rest@.drop_first() == rest@.remove(0));
            assert forall|len: nat| #[trigger] blocks_in(orig, len) implies blocks_in(rest@.drop_first(), len)
                && block_in(rest@[0], len) by {
                lemma_blocks_in_drop_first(rest@, len);
            }
            assert(blocks_size(rest@) == block_size(rest@[0]) + blocks_size(rest@.drop_first()));
            assert(block_size(rest@[0]) >= 1);
        }
        let ghost before = rest@;
        let ghost first = rest@[0];
        let block = rest.remove(0);
        assert(rest@ == before.drop_first());
        proof {
            if no_sections(orig) {
                assert(!(first.kind is Section));
                assert forall|i: int| 0 <= i < rest@.len() implies !((#[trigger] rest@[i]).kind is Section) by {
                    assert(rest@[i] == before[i + 1]);
                }
            }
            assert(first.kind matches BlockKind::Heading { level, .. } ==> (stop matches Some(s) ==> level > s));
            lemma_outline_front(before);
        }
        let Block { span, attrs, kind } = block;
        match kind {
            BlockKind::Heading { level, title } => {
                let ghost mid = rest@;
                let children = build_level(rest, Some(level));
                let end = if children.len() > 0 { children[children.len() - 1].span.end } else { span.end };
                let sec_span = if end >= span.start { Span { start: span.start, end } } else { span };
                let label = match &attrs.label {
                    Some(l) => Some(copy_label(l)),
                    None => None,
                };
                let b = Block {
                    span: sec_span,
                    attrs,
                    kind: BlockKind::Section { level, title, label, children },
                };
                proof {
                    lemma_blocks_size_push(out@, b);
                    assert(block_size(first) == 1);
                    assert forall|len: nat| #[trigger] blocks_in(orig, len) implies blocks_in(out@.push(b), len)
                        && blocks_in(rest@, len) by {
                        assert(blocks_in(mid, len));
                        assert(block_in(first, len));
                        assert(children@.len() > 0 ==> block_in(children@[children@.len() - 1], len));
                        lemma_blocks_in_push(out@, b, len);
                    }
                    if no_sections(orig) {
                        assert(grouped_one(b));
                        lemma_grouped_push(out@, b);
                        assert(out@.push(b)[out@.len() as int] == b);
                        assert(out@.push(b).drop_last() == out@);
                        assert(outline_one(first) == seq![shape_key(b)]);
                        assert(no_sections(mid));
                        assert(outline(children@) + outline(rest@) == outline(mid));
                        assert(mid == before.drop_first());
                        assert(outline(before) == outline_one(first) + outline(mid));
                        assert(outline(out@.push(b)) == outline(out@) + outline_one(b));
                        assert(outline_one(b) == seq![shape_key(b)] + outline(children@));
                        assert(outline(out@) + outline(before) == outline(orig));
                        assert(outline(out@.push(b)) + outline(rest@) =~= outline(orig));
                        lemma_closed_push(out@, b);
                        assert forall|i: int| 0 <= i < out@.len() + 1 implies ((#[trigger] out@.push(b)[i]).kind matches BlockKind::Section { level, .. }
                            ==> (stop matches Some(s) ==> level > s)) by {
                            if i < out@.len() {
                                assert(out@.push(b)[i] == out@[i]);
                            }
                        }
                    }
                }
                out.push(b);
            },
            other => {
                let b = rewrite_block(Block { span, attrs, kind: other });
                proof {
                    lemma_blocks_size_push(out@, b);
                    assert forall|len: nat| #[trigger] blocks_in(orig, len) implies blocks_in(out@.push(b), len) by {
                        assert(block_in(first, len));
                        lemma_blocks_in_push(out@, b, len);
                    }
                    if no_sections(orig) {
                        assert(grouped_one(b));
                        lemma_grouped_push(out@, b);
                        assert forall|i: int| 0 <= i < out@.len() + 1 implies ((#[trigger] out@.push(b)[i]).kind matches BlockKind::Section { level, .. }
                            ==> (stop matches Some(s) ==> level > s)) by {
                            if i < out@.len() {
                                assert(out@.push(b)[i] == out@[i]);
                            }
                        }
                        assert(out@.push(b).drop_last() == out@);
                        assert(out@.push(b).last() == b);
                        assert(outline_one(b) == outline_one(first));
                        assert(outline(out@.push(b)) + outline(rest@) =~= outline(orig));
                        lemma_closed_push(out@, b);
                    }
                }
                out.push(b);
            },
        }
    }
    out
}

/// Groups the blocks nested in a block into sections.
fn rewrite_block(block: Block) -> (r: Block)
    ensures
        forall|len: nat| #[trigger] block_in(block, len) ==> block_in(r, len),
        !(block.kind is Section) && !(block.kind is Heading) ==> !(r.kind is Section) && !(r.kind is Heading),
        block_size(r) == block_size(block),
        r.span == block.span,
        !(block.kind is List || block.kind is BlockQuote || block.kind is Box || block.kind is Section)
            ==> r == block,
        block.kind matches BlockKind::BlockQuote { blocks } ==> (r.kind matches BlockKind::BlockQuote {
            blocks: rb,
        } && (no_sections(blocks@) ==> grouped(rb@))),
        block.kind matches BlockKind::Box(bx) ==> (r.kind matches BlockKind::Box(rx) && rx.title
            == bx.title && (no_sections(bx.blocks@) ==> grouped(rx.blocks@))),
    decreases block_size(block), 0nat,
{
    let ghost orig = block;
    let Block { span, attrs, kind } = block;
    let kind = match kind {
        BlockKind::List(List { ordered, start, tight, items }) => {
            let mut rest = items;
            let mut new_items: Vec<ListItem> = Vec::new();
            while rest.len() > 0
                invariant
                    forall|len: nat| #[trigger] block_in(orig, len) ==> (forall|k: int|
                        0 <= k < rest@.len() ==> item_in(#[trigger] rest@[k], len)),
                    forall|len: nat| #[trigger] block_in(orig, len) ==> (forall|k: int|
                        0 <= k < new_items@.len() ==> item_in(#[trigger] new_items@[k], len)),
                    items_size(rest@) <= items_size(items@),
                    items_size(items@) == items_size(new_items@) + items_size(rest@),
                    items_size(items@) < block_size(block),
                    orig.kind == BlockKind::List(List { ordered, start, tight, items }),
                decreases rest@.len(),
            {
                proof {
                    assert(rest@.drop_first() == rest@.remove(0));
                    assert(items_size(rest@) == blocks_size(rest@[0].blocks@) + items_size(rest@.drop_first()));
                }
                let ghost before = rest@;
                let ghost before_items = new_items@;
                let ListItem { span: ispan, blocks, task } = rest.remove(0);
                let ghost iblocks = blocks@;
                let blocks = build_sections(blocks);
                let it = ListItem { span: ispan, blocks, task };
                proof {
                    lemma_items_size_push(before_items, it);
                    assert forall|len: nat| #[trigger] block_in(orig, len) implies (forall|k: int|
                        0 <= k < rest@.len() ==> item_in(#[trigger] rest@[k], len)) by {
                        assert forall|k: int| 0 <= k < rest@.len() implies item_in(#[trigger] rest@[k], len) by {
                            assert(rest@[k] == before[k + 1]);
                        }
                    }
                    assert forall|len: nat| #[trigger] block_in(orig, len) implies (forall|k: int|
                        0 <= k < before_items.len() + 1 ==> item_in(#[trigger] before_items.push(it)[k], len)) by {
                        assert(item_in(before[0], len));
                        assert(blocks_in(iblocks, len));
                        assert forall|k: int| 0 <= k < before_items.len() + 1 implies item_in(
                            #[trigger] before_items.push(it)[k], len) by {
                            if k < before_items.len() {
                                assert(before_items.push(it)[k] == before_items[k]);
                            }
                        }
                    }
                }
                new_items.push(it);
            }
            BlockKind::List(List { ordered, start, tight, items: new_items })
        },
        BlockKind::BlockQuote { blocks } => BlockKind::BlockQuote { blocks: build_sections(blocks) },
        BlockKind::Box(BoxBlock { title, blocks }) => BlockKind::Box(
            BoxBlock { title, blocks: build_sections(blocks) },
        ),
        BlockKind::Section { level, title, label, children } => BlockKind::Section {
            level,
            title,
            label,
            children: build_sections(children),
        },
        other => other,
    };
    let r = Block { span, attrs, kind };
    proof {
        assert forall|len: nat| #[trigger] block_in(orig, len) implies block_in(r, len) by {
            match orig.kind {
                BlockKind::BlockQuote { blocks } => assert(blocks_in(blocks@, len)),
                BlockKind::Box(bx) => assert(blocks_in(bx.blocks@, len)),
                BlockKind::Section { children, .. } => assert(blocks_in(children@, len)),
                _ => {},
            }
        }
    }
    r
}


/// The spans of the blocks and of the blocks nested in them (in sections, quotes, list items
/// and boxes), each block before what it holds.
pub open spec fn block_spans(bs: Seq<Block>) -> Seq<Span>
    decreases bs,
{
    if bs.len() == 0 {
        Seq::empty()
    } else {
        seq![bs[0].span] + nested_spans(bs[0]) + block_spans(bs.drop_first())
    }
}

/// The spans of the blocks nested in a block.
pub open spec fn nested_spans(b: Block) -> Seq<Span>
    decreases b,
{
    match b.kind {
        BlockKind::Section { children, .. } => block_spans(children@),
        BlockKind::BlockQuote { blocks } => block_spans(blocks@),
        BlockKind::Box(bx) => block_spans(bx.blocks@),
        BlockKind::List(l) => item_spans(l.items@),
        _ => Seq::empty(),
    }
}

pub open spec fn item_spans(items: Seq<ListItem>) -> Seq<Span>
    decreases items,
{
    if items.len() == 0 {
        Seq::empty()
    } else {
        block_spans(items[0].blocks@) + item_spans(items.drop_first())
    }
}

/// Appends the spans of the blocks and of what they hold.
pub fn push_block_spans(blocks: &[Block], out: &mut Vec<Span>)
    ensures
        final(out)@ == old(out)@ + block_spans(blocks@),
    decreases blocks@, 0nat,
{
    let mut i: usize = 0;
    proof {
        assert(blocks@.subrange(0, blocks@.len() as int) == blocks@);
    }
    while i < blocks.len()
        invariant
            i <= blocks@.len(),
            old(out)@ + block_spans(blocks@) == out@ + block_spans(blocks@.subrange(i as int, blocks@.len() as int)),
        decreases blocks.len() - i,
    {
        let ghost rest = blocks@.subrange(i as int, blocks@.len() as int);
        proof {
            assert(rest.drop_first() == blocks@.subrange(i + 1, blocks@.len() as int));
            assert(decreases_to!(blocks@ => blocks@[i as int]));
        }
        let b = &blocks[i];
        out.push(b.span);
        push_nested_spans(b, out);
        proof {
            assert(block_spans(rest) == seq![rest[0].span] + nested_spans(rest[0]) + block_spans(rest.drop_first()));
        }
        i = i + 1;
    }
    proof {
        assert(blocks@.subrange(blocks@.len() as int, blocks@.len() as int) == Seq::<Block>::empty());
    }
}

proof fn lemma_item_blocks_decrease(block: Block, list: List, k: int)
    requires
        block.kind == BlockKind::List(list),
        0 <= k < list.items@.len(),
    ensures
        decreases_to!(block => list.items@[k].blocks@),
{
    let it = list.items@[k];
    assert(decreases_to!(block => block.kind));
    assert(decreases_to!(block.kind => block.kind->List_0));
    assert(decreases_to!(list => list.items));
    assert(decreases_to!(list.items => list.items@));
    assert(decreases_to!(list.items@ => list.items@[k]));
    assert(decreases_to!(it => it.blocks));
    assert(decreases_to!(it.blocks => it.blocks@));
}

fn push_nested_spans(b: &Block, out: &mut Vec<Span>)
    ensures
        final(out)@ == old(out)@ + nested_spans(*b),
    decreases *b, 1nat,
{
    match &b.kind {
        BlockKind::Section { children, .. } => {
            proof {
                assert(decreases_to!(*b => b.kind));
            }
            push_block_spans(children.as_slice(), out)
        },
        BlockKind::BlockQuote { blocks } => push_block_spans(blocks.as_slice(), out),
        BlockKind::Box(bx) => push_block_spans(bx.blocks.as_slice(), out),
        BlockKind::List(l) => {
            let mut k: usize = 0;
            let ghost base = out@;
            proof {
                assert(l.items@.subrange(0, l.items@.len() as int) == l.items@);
            }
            while k < l.items.len()
                invariant
                    k <= l.items@.len(),
                    b.kind == BlockKind::List(*l),
                    base + item_spans(l.items@) == out@ + item_spans(l.items@.subrange(k as int, l.items@.len() as int)),
                decreases l.items.len() - k,
            {
                let ghost rest = l.items@.subrange(k as int, l.items@.len() as int);
                proof {
                    assert(rest.drop_first() == l.items@.subrange(k + 1, l.items@.len() as int));
                }
                proof {
                    lemma_item_blocks_decrease(*b, *l, k as int);
                }
                push_block_spans(l.items[k].blocks.as_slice(), out);
                k = k + 1;
            }
            proof {
                assert(l.items@.subrange(l.items@.len() as int, l.items@.len() as int) == Seq::<ListItem>::empty());
            }
        },
        _ => {},
    }
}

/// The source ranges of the blocks and of the blocks nested in them, each block before what
/// it holds.
pub fn block_ranges(blocks: &[Block], map: &SourceMap) -> (r: Vec<Range>)
    ensures
        r@.len() == block_spans(blocks@).len(),
        forall|i: int| 0 <= i < r@.len() ==> #[trigger] r@[i] == (Range {
            start: map.spec_position(block_spans(blocks@)[i].start),
            end: map.spec_position(block_spans(blocks@)[i].end),
        }),
{
    let mut spans: Vec<Span> = Vec::new();
    push_block_spans(blocks, &mut spans);
    assert(spans@ =~= block_spans(blocks@));
    let mut out: Vec<Range> = Vec::new();
    let mut i: usize = 0;
    while i < spans.len()
        invariant
            i <= spans@.len(),
            out@.len() == i,
            forall|j: int| 0 <= j < i ==> #[trigger] out@[j] == (Range {
                start: map.spec_position(spans@[j].start),
                end: map.spec_position(spans@[j].end),
            }),
        decreases spans.len() - i,
    {
        out.push(map.range(spans[i]));
        i = i + 1;
    }
    out
}
} // verus!
