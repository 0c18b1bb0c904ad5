//! The pages of a B-tree as text, for debugging.

use vstd::prelude::*;

use crate::btree::{can_read, is_tree, lemma_same_reader, tree_at, BTree};
use crate::btree_model::{
    count, forest_size, inner_entries, lemma_forest_size, lemma_member_count, repr, size, Tree,
};
use crate::btree_node::{
    get_entry_key, get_entry_value, get_next_sib, get_num_entries, get_prev_sib, get_right_child,
    is_leaf, node, node_wf, Entry, Node,
};
use crate::field_path::{decimal_digits, decimal_string};
use crate::page_cache::{
    lockable, page_num_view, PageCache, PageData, PageNum, PersistentStore, INVALID_PAGE,
};
use crate::util::{get_u64, le64, lemma_le64_roundtrip};

verus! {

/// How many bytes of a key or a value are shown.
pub const SHOWN_BYTES: usize = 16;

pub open spec fn hex_digit(n: nat) -> char {
    if n < 10 {
        ('0' as nat + n) as char
    } else {
        ('a' as nat + n - 10) as char
    }
}

/// The bytes as hexadecimal digits.
pub open spec fn hex_text(bytes: Seq<u8>) -> Seq<char>
    decreases bytes.len(),
{
    if bytes.len() == 0 {
        Seq::empty()
    } else {
        let last = bytes.last() as nat;
        hex_text(bytes.drop_last()).push(hex_digit(last / 16)).push(hex_digit(last % 16))
    }
}

/// At most the first `limit` bytes as hexadecimal digits.
pub open spec fn shown_hex(bytes: Seq<u8>, limit: nat) -> Seq<char> {
    hex_text(
        if bytes.len() > limit {
            bytes.take(limit as int)
        } else {
            bytes
        },
    )
}

pub open spec fn page_text(num: u64) -> Seq<char> {
    "PageNum("@ + decimal_digits(num as nat) + ")"@
}

pub open spec fn link_text(num: Option<u64>) -> Seq<char> {
    match num {
        Some(num) => "Some("@ + page_text(num) + ")"@,
        None => "None"@,
    }
}

pub open spec fn bool_text(b: bool) -> Seq<char> {
    if b {
        "true"@
    } else {
        "false"@
    }
}

/// The line above the entries of a node.
pub open spec fn node_text(n: Node, num: u64) -> Seq<char> {
    "Node page_num "@ + page_text(num) + " is_leaf "@ + bool_text(n.leaf) + " prev_sib "@
        + link_text(n.prev) + " next_sib "@ + link_text(n.next) + " right_child "@ + link_text(
        n.right,
    )
}

/// The page of a subtree, as it is stored in an interior node.
pub open spec fn child_page(entry: Entry) -> u64 {
    le64(entry.value, 0) as u64
}

/// The line of an entry.
pub open spec fn entry_text(n: Node, i: int) -> Seq<char> {
    let entry = n.entries[i];
    decimal_digits(i as nat) + ". "@ + shown_hex(entry.key, SHOWN_BYTES as nat) + if n.leaf {
        " value "@ + shown_hex(entry.value, SHOWN_BYTES as nat)
    } else {
        " child page "@ + page_text(child_page(entry))
    }
}

/// The lines of a node.
pub open spec fn node_lines(n: Node, num: u64) -> Seq<Seq<char>> {
    seq![node_text(n, num)] + Seq::new(n.entries.len(), |i: int| entry_text(n, i))
}

/// The pages below a node.
pub open spec fn children(n: Node) -> Seq<u64> {
    if n.leaf {
        Seq::empty()
    } else {
        n.entries.map_values(|entry: Entry| child_page(entry)) + match n.right {
            Some(num) => seq![num],
            None => Seq::empty(),
        }
    }
}

/// The lines of up to `steps` nodes, level by level.
pub open spec fn level_lines(pages: Map<u64, Seq<u8>>, queue: Seq<u64>, steps: nat) -> Seq<
    Seq<char>,
>
    decreases steps,
{
    if steps == 0 || queue.len() == 0 {
        Seq::empty()
    } else {
        let n = node(pages[queue[0]]);
        node_lines(n, queue[0]) + level_lines(
            pages,
            queue.skip(1) + children(n),
            (steps - 1) as nat,
        )
    }
}

/// One hexadecimal digit as text.
fn hex_digit_str(n: u8) -> (text: &'static str)
    requires
        n < 16,
    ensures
        text@ == seq![hex_digit(n as nat)],
{
    proof {
        reveal_strlit("0");
        reveal_strlit("1");
        reveal_strlit("2");
        reveal_strlit("3");
        reveal_strlit("4");
        reveal_strlit("5");
        reveal_strlit("6");
        reveal_strlit("7");
        reveal_strlit("8");
        reveal_strlit("9");
        reveal_strlit("a");
        reveal_strlit("b");
        reveal_strlit("c");
        reveal_strlit("d");
        reveal_strlit("e");
        reveal_strlit("f");
    }
    let text = match n {
        0 => "0",
        1 => "1",
        2 => "2",
        3 => "3",
        4 => "4",
        5 => "5",
        6 => "6",
        7 => "7",
        8 => "8",
        9 => "9",
        10 => "a",
        11 => "b",
        12 => "c",
        13 => "d",
        14 => "e",
        _ => "f",
    };
    assert(text@ =~= seq![hex_digit(n as nat)]);
    text
}

/// At most the first `limit` bytes as hexadecimal digits.
pub fn to_hex_string(bytes: &[u8], limit: usize) -> (text: String)
    ensures
        text@ == shown_hex(bytes@, limit as nat),
{
    let end: usize = if bytes.len() > limit {
        limit
    } else {
        bytes.len()
    };
    let mut text = String::new();
    let mut i: usize = 0;
    assert(bytes@.take(0) =~= Seq::<u8>::empty());
    while i < end
        invariant
            i <= end,
            end <= bytes@.len(),
            text@ == hex_text(bytes@.take(i as int)),
        decreases end - i,
    {
        let byte: u8 = bytes[i];
        text.append(hex_digit_str(byte / 16));
        text.append(hex_digit_str(byte % 16));
        proof {
            let now = bytes@.take(i + 1);
            assert(now.drop_last() =~= bytes@.take(i as int));
            assert(text@ =~= hex_text(now));
        }
        i = i + 1;
    }
    assert(bytes@.len() <= limit ==> bytes@.take(end as int) =~= bytes@);
    text
}

/// A page number as text.
fn page_string(num: PageNum) -> (text: String)
    ensures
        text@ == page_text(num@),
{
    let mut text = "PageNum(".to_owned();
    text.append(decimal_string(num.as_u64()).as_str());
    text.append(")");
    text
}

/// A link to another page as text.
fn link_string(num: Option<PageNum>) -> (text: String)
    ensures
        text@ == link_text(page_num_view(num)),
{
    match num {
        Some(num) => {
            let mut text = "Some(".to_owned();
            text.append(page_string(num).as_str());
            text.append(")");
            text
        },
        None => "None".to_owned(),
    }
}

/// The line above the entries of a node.
fn node_string(page: &PageData, num: PageNum) -> (text: String)
    ensures
        text@ == node_text(node(page@), num@),
{
    let mut text = "Node page_num ".to_owned();
    text.append(page_string(num).as_str());
    text.append(" is_leaf ");
    text.append(
        if is_leaf(page) {
            "true"
        } else {
            "false"
        },
    );
    text.append(" prev_sib ");
    text.append(link_string(get_prev_sib(page)).as_str());
    text.append(" next_sib ");
    text.append(link_string(get_next_sib(page)).as_str());
    text.append(" right_child ");
    text.append(link_string(get_right_child(page)).as_str());
    text
}

/// An interior node leads to the subtrees below it.
proof fn lemma_children(pages: Map<u64, Seq<u8>>, t: Tree)
    requires
        repr(pages, t),
    ensures
        ({
            let n = node(pages[t.page()]);
            match t {
                Tree::Leaf { .. } => children(n) == Seq::<u64>::empty(),
                Tree::Inner { kids, .. } => {
                    &&& children(n) == kids.map_values(|kid: Tree| kid.page())
                    &&& forall|i: int|
                        0 <= i < n.entries.len() ==> (#[trigger] n.entries[i]).value.len() == 8
                            && child_page(n.entries[i]) == kids[i].page()
                },
            }
        }),
{
    let n = node(pages[t.page()]);
    if let Tree::Inner { keys, kids, .. } = t {
        assert forall|i: int| 0 <= i < n.entries.len() implies (
        #[trigger] n.entries[i]).value.len() == 8 && child_page(n.entries[i]) == kids[i].page() by {
            assert(n.entries[i] == inner_entries(keys, kids)[i]);
            lemma_le64_roundtrip(kids[i].page());
        }
        assert(children(n) =~= kids.map_values(|kid: Tree| kid.page()));
    }
}

/// The subtrees that wait for their turn.
spec fn waiting(pages: Map<u64, Seq<u8>>, queue: Seq<PageNum>, trees: Seq<Tree>) -> bool {
    &&& queue.len() == trees.len()
    &&& forall|i: int|
        0 <= i < trees.len() ==> (#[trigger] trees[i]).page() == queue[i]@ && repr(pages, trees[i])
}

spec fn numbers(queue: Seq<PageNum>) -> Seq<u64> {
    queue.map_values(|num: PageNum| num@)
}

spec fn texts(lines: Seq<String>) -> Seq<Seq<char>> {
    lines.map_values(|line: String| line@)
}

/// Writes the lines of a node and adds the pages below it to the queue.
fn print_node(
    page: &PageData,
    num: PageNum,
    lines: &mut Vec<String>,
    queue: &mut Vec<PageNum>,
)
    requires
        node_wf(page@),
        !node(page@).leaf ==> forall|i: int|
            0 <= i < node(page@).entries.len() ==> (#[trigger] node(page@).entries[i]).value.len()
                == 8 && child_page(node(page@).entries[i]) != INVALID_PAGE,
    ensures
        texts(final(lines)@) == texts(old(lines)@) + node_lines(node(page@), num@),
        numbers(final(queue)@) == numbers(old(queue)@) + children(node(page@)),
{
    let ghost n = node(page@);
    let ghost lines0 = texts(lines@);
    let ghost queue0 = numbers(queue@);
    lines.push(node_string(page, num));
    let leaf = is_leaf(page);
    let entries: usize = get_num_entries(page);
    let mut i: usize = 0;
    proof {
        assert(texts(lines@) =~= lines0 + node_lines(n, num@).take(1));
        assert(numbers(queue@) =~= queue0 + children(n).take(0));
    }
    while i < entries
        invariant
            i <= entries,
            entries == n.entries.len(),
            n == node(page@),
            node_wf(page@),
            leaf == n.leaf,
            !leaf ==> forall|i: int|
                0 <= i < n.entries.len() ==> (#[trigger] n.entries[i]).value.len() == 8
                    && child_page(n.entries[i]) != INVALID_PAGE,
            texts(lines@) == lines0 + node_lines(n, num@).take(i + 1),
            numbers(queue@) == queue0 + children(n).take(
                if leaf {
                    0
                } else {
                    i as int
                },
            ),
        decreases entries - i,
    {
        let value = get_entry_value(page, i);
        let mut text = decimal_string(i as u64);
        text.append(". ");
        text.append(to_hex_string(get_entry_key(page, i), SHOWN_BYTES).as_str());
        if leaf {
            text.append(" value ");
            text.append(to_hex_string(value, SHOWN_BYTES).as_str());
            assert(text@ =~= entry_text(n, i as int));
        } else {
            let child = PageNum::from_u64(get_u64(value, 0));
            text.append(" child page ");
            text.append(page_string(child).as_str());
            assert(text@ =~= entry_text(n, i as int));
            let ghost so_far = queue@;
            queue.push(child);
            proof {
                assert(children(n)[i as int] == child@);
                assert(numbers(queue@) =~= numbers(so_far).push(child@));
                assert(children(n).take(i + 1) =~= children(n).take(i as int).push(child@));
                assert(numbers(queue@) =~= queue0 + children(n).take(i + 1));
            }
        }
        let ghost so_far = lines@;
        lines.push(text);
        proof {
            let all = node_lines(n, num@);
            assert(all[i + 1] == text@);
            assert(texts(lines@) =~= texts(so_far).push(text@));
            assert(all.take(i + 2) =~= all.take(i + 1).push(text@));
            assert(texts(lines@) =~= lines0 + all.take(i + 2));
        }
        i = i + 1;
    }
    assert(node_lines(n, num@).take(i + 1) =~= node_lines(n, num@));
    if !leaf {
        let ghost so_far = queue@;
        if let Some(child) = get_right_child(page) {
            queue.push(child);
            assert(numbers(queue@) =~= numbers(so_far).push(child@));
        }
        proof {
            let listed = n.entries.map_values(|entry: Entry| child_page(entry));
            assert(children(n).take(entries as int) =~= listed);
        }
    }
    assert(numbers(queue@) =~= queue0 + children(n));
}

impl BTree {
    /// The lines that show each node of the tree with its entries, level by level.
    pub fn print<S: PersistentStore>(&self, page_cache: &mut PageCache<S>) -> (lines: Vec<String>)
        requires
            old(page_cache).inv(),
            can_read(old(page_cache)@, self.root()),
        ensures
            final(page_cache).inv(),
            final(page_cache)@.same_but_order(old(page_cache)@),
            lines@.map_values(|line: String| line@) == level_lines(
                old(page_cache)@.pages,
                seq![self.root()],
                size(tree_at(old(page_cache)@.pages, self.root())),
            ),
    {
        let ghost cache = page_cache@;
        let ghost pages = cache.pages;
        let ghost t = tree_at(pages, self.root());
        let ghost all = level_lines(pages, seq![self.root()], size(t));
        let ghost mut trees = seq![t];
        let mut lines: Vec<String> = Vec::new();
        let mut fifo: Vec<PageNum> = Vec::new();
        fifo.push(self.get_root_page_id());
        proof {
            assert(is_tree(pages, self.root(), t));
            assert(numbers(fifo@) =~= seq![self.root()]);
            assert(texts(lines@) =~= Seq::<Seq<char>>::empty());
            assert(trees.drop_last() =~= Seq::<Tree>::empty());
            assert(forest_size(trees) == size(t)) by {
                reveal_with_fuel(forest_size, 2);
            }
            assert(texts(lines@) + all =~= all);
        }
        while fifo.len() > 0
            invariant
                page_cache.inv(),
                page_cache@.same_but_order(cache),
                cache == old(page_cache)@,
                pages == cache.pages,
                t == tree_at(pages, self.root()),
                is_tree(pages, self.root(), t),
                can_read(page_cache@, self.root()),
                waiting(pages, fifo@, trees),
                forall|i: int, q: u64|
                    0 <= i < trees.len() && #[trigger] count(trees[i], q) > 0 ==> count(t, q) > 0,
                texts(lines@) + level_lines(pages, numbers(fifo@), forest_size(trees)) == all,
            decreases forest_size(trees),
        {
            let ghost before = page_cache@;
            let ghost queue = numbers(fifo@);
            let ghost first = trees[0];
            let ghost kids = match first {
                Tree::Leaf { .. } => Seq::<Tree>::empty(),
                Tree::Inner { kids, .. } => kids,
            };
            let ghost later = trees.skip(1) + kids;
            let page_num = fifo.remove(0);
            proof {
                assert(page_num@ == first.page());
                assert(count(first, page_num@) > 0);
                lemma_children(pages, first);
                assert(seq![first] + trees.skip(1) =~= trees);
                assert(seq![first].drop_last() =~= Seq::<Tree>::empty());
                lemma_forest_size(seq![first], trees.skip(1));
                lemma_forest_size(trees.skip(1), kids);
                assert(forest_size(seq![first]) == size(first)) by {
                    reveal_with_fuel(forest_size, 2);
                }
                assert(forest_size(trees) == 1 + forest_size(later));
            }
            let page = page_cache.read_page(page_num);
            let ghost n = node(page@);
            proof {
                lemma_same_reader(before, page_cache@, self.root());
                assert(repr(pages, first));
                if !n.leaf {
                    assert forall|i: int| 0 <= i < n.entries.len() implies child_page(
                        #[trigger] n.entries[i],
                    ) != INVALID_PAGE by {
                        let q = kids[i].page();
                        lemma_member_count(kids, i, q);
                        assert(count(kids[i], q) > 0);
                        assert(count(trees[0], q) > 0);
                        assert(lockable(q));
                    }
                }
            }
            let ghost lines0 = texts(lines@);
            let ghost rest = fifo@;
            print_node(&page, page_num, &mut lines, &mut fifo);
            proof {
                assert(numbers(rest) =~= queue.skip(1));
                assert(queue[0] == page_num@);
                assert(numbers(fifo@) == queue.skip(1) + children(n));
                let left = level_lines(pages, numbers(fifo@), forest_size(later));
                assert(lines0 + (node_lines(n, page_num@) + left) =~= texts(lines@) + left);
                assert forall|i: int| 0 <= i < later.len() implies (#[trigger] later[i]).page()
                    == fifo@[i]@ && repr(pages, later[i]) by {
                    assert(fifo@[i]@ == numbers(fifo@)[i]);
                    if i < rest.len() {
                        assert(later[i] == trees[i + 1]);
                        assert(numbers(fifo@)[i] == queue[i + 1]);
                    } else {
                        assert(later[i] == kids[i - rest.len()]);
                        assert(numbers(fifo@)[i] == children(n)[i - rest.len()]);
                    }
                }
                assert forall|i: int, q: u64|
                    0 <= i < later.len() && #[trigger] count(later[i], q) > 0 implies count(
                    t,
                    q,
                ) > 0 by {
                    if i < rest.len() {
                        assert(later[i] == trees[i + 1]);
                    } else {
                        assert(later[i] == kids[i - rest.len()]);
                        lemma_member_count(kids, i - rest.len(), q);
                        assert(count(trees[0], q) > 0);
                    }
                }
                trees = later;
            }
        }
        lines
    }
}

/// Each byte is shown by two of sixteen digits, the first bytes first, and no more bytes than
/// the limit allows.
pub proof fn law_bytes_are_shown_in_hex(bytes: Seq<u8>, byte: u8, limit: nat)
    ensures
        ({
            let digits = seq![
                '0', '1', '2', '3', '4', '5', '6', '7', '8', '9', 'a', 'b', 'c', 'd', 'e', 'f',
            ];
            &&& hex_text(Seq::empty()) == Seq::<char>::empty()
            &&& hex_text(bytes.push(byte)) == hex_text(bytes) + seq![
                digits[byte as int / 16],
                digits[byte as int % 16],
            ]
        }),
        bytes.len() <= limit ==> shown_hex(bytes, limit) == hex_text(bytes),
        bytes.len() > limit ==> shown_hex(bytes, limit) == hex_text(bytes.take(limit as int)),
{
    assert(bytes.push(byte).drop_last() =~= bytes);
    let high = byte as nat / 16;
    let low = byte as nat % 16;
    let digits = seq![
        '0', '1', '2', '3', '4', '5', '6', '7', '8', '9', 'a', 'b', 'c', 'd', 'e', 'f',
    ];
    assert(forall|n: nat| n < 16 ==> #[trigger] hex_digit(n) == digits[n as int]);
    assert(hex_digit(high) == digits[byte as int / 16]);
    assert(hex_digit(low) == digits[byte as int % 16]);
    assert(hex_text(bytes.push(byte)) =~= hex_text(bytes) + seq![
        digits[byte as int / 16],
        digits[byte as int % 16],
    ]);
}

/// The first line of a node names its page, its kind and its links; there is one more line for
/// each entry, with its number, its key, and its value or the page below it.
pub proof fn law_lines_of_a_node(n: Node, num: u64, i: int)
    requires
        0 <= i < n.entries.len(),
    ensures
        node_lines(n, num).len() == n.entries.len() + 1,
        node_lines(n, num)[0] == "Node page_num "@ + page_text(num) + " is_leaf "@ + (if n.leaf {
            "true"@
        } else {
            "false"@
        }) + " prev_sib "@ + link_text(n.prev) + " next_sib "@ + link_text(n.next)
            + " right_child "@ + link_text(n.right),
        node_lines(n, num)[i + 1] == decimal_digits(i as nat) + ". "@ + shown_hex(
            n.entries[i].key,
            16,
        ) + (if n.leaf {
            " value "@ + shown_hex(n.entries[i].value, 16)
        } else {
            " child page "@ + page_text(le64(n.entries[i].value, 0) as u64)
        }),
        page_text(num) == "PageNum("@ + decimal_digits(num as nat) + ")"@,
        link_text(Some(num)) == "Some("@ + page_text(num) + ")"@,
        link_text(None) == "None"@,
{
}

/// The nodes are shown in the order of a queue: a node that was shown is followed by what was
/// queued behind it, and the nodes below it are queued behind that, from left to right.
pub proof fn law_nodes_are_shown_level_by_level(
    pages: Map<u64, Seq<u8>>,
    first: u64,
    rest: Seq<u64>,
    steps: nat,
)
    ensures
        ({
            let n = node(pages[first]);
            let below = Seq::new(
                n.entries.len(),
                |i: int| le64(n.entries[i].value, 0) as u64,
            );
            let queue = if n.leaf {
                rest
            } else if n.right is Some {
                rest + below + seq![n.right->Some_0]
            } else {
                rest + below
            };
            level_lines(pages, seq![first] + rest, steps + 1) == node_lines(n, first)
                + level_lines(pages, queue, steps)
        }),
        level_lines(pages, Seq::empty(), steps) == Seq::<Seq<char>>::empty(),
{
    let n = node(pages[first]);
    let queue = seq![first] + rest;
    assert(queue.skip(1) =~= rest);
    let below = Seq::new(n.entries.len(), |i: int| le64(n.entries[i].value, 0) as u64);
    assert(n.entries.map_values(|entry: Entry| child_page(entry)) =~= below);
    if n.leaf {
        assert(rest + children(n) =~= rest);
    } else if n.right is Some {
        assert(rest + children(n) =~= rest + below + seq![n.right->Some_0]);
    } else {
        assert(rest + children(n) =~= rest + below);
    }
}

} // verus!
