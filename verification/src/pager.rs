//! Which matches stand on which page of the horizontal list.

use vstd::prelude::*;
use vstd::string::StringExecFns;
use crate::editing::{boundary_index, index_at};
use crate::keys::{Status, StatusView};
use crate::text::{byte_len, byte_length, chars_of};

verus! {

/// How wide `text` is drawn: every byte takes the width of the font.
pub open spec fn text_width(text: Seq<char>, font_width: u32) -> int {
    byte_len(text) * font_width
}

/// How wide a match is drawn in the list: its text and ten more.
pub open spec fn item_width(text: Seq<char>, font_width: u32) -> int {
    text_width(text, font_width) + 10
}

/// The byte length of the longest of `items`; zero where there is none.
pub open spec fn longest(items: Seq<Seq<char>>) -> nat
    decreases items.len(),
{
    if items.len() == 0 {
        0
    } else if byte_len(items.last()) > longest(items.drop_last()) {
        byte_len(items.last())
    } else {
        longest(items.drop_last())
    }
}

/// The width that is left for the list of matches in a menu `width` wide:
/// what the margin, the prompt, an input field for the longest candidate and
/// the two arrows leave.
pub open spec fn list_width(width: u32, font_width: u32, prompt: Seq<char>, longest: nat) -> int {
    width - 2 - (text_width(prompt, font_width) + 4) - (font_width * longest + 8) - (font_width
        + 4) - (font_width - 7)
}

/// The page on which the list stands after the first `n` matches, and how
/// much of that page is taken. A match that does not fit behind the ones
/// before it opens a new page.
pub open spec fn laid_out(matches: Seq<Seq<char>>, font_width: u32, limit: int, n: int) -> (
    int,
    int,
)
    decreases n,
{
    if n <= 0 {
        (0, 0)
    } else {
        let before = laid_out(matches, font_width, limit, n - 1);
        let wide = item_width(matches[n - 1], font_width);
        if before.1 + wide > limit {
            (before.0 + 1, wide)
        } else {
            (before.0, before.1 + wide)
        }
    }
}

/// Those of the first `n` matches that are shown on page `page`: the ones
/// that the list reaches on that page, but for the one that opens the page.
pub open spec fn shown_on(
    matches: Seq<Seq<char>>,
    font_width: u32,
    limit: int,
    page: int,
    n: int,
) -> Seq<Seq<char>>
    decreases n,
{
    if n <= 0 {
        Seq::empty()
    } else {
        let before = laid_out(matches, font_width, limit, n - 1);
        let rest = shown_on(matches, font_width, limit, page, n - 1);
        if before.1 + item_width(matches[n - 1], font_width) <= limit && before.0 == page {
            rest.push(matches[n - 1])
        } else {
            rest
        }
    }
}

/// Where the list has come to after the first `n` of `items`.
pub open spec fn item_end(items: Seq<Seq<char>>, font_width: u32, x: int, n: int) -> int
    decreases n,
{
    if n <= 0 {
        x
    } else {
        item_end(items, font_width, x, n - 1) + item_width(items[n - 1], font_width)
    }
}

/// Where the list has come to depends on the items that it has passed only.
pub proof fn lemma_item_end_prefix(
    items: Seq<Seq<char>>,
    other: Seq<Seq<char>>,
    font_width: u32,
    x: int,
    n: int,
)
    requires
        n <= items.len(),
        n <= other.len(),
        forall|k: int| 0 <= k < n ==> items[k] == other[k],
    ensures
        item_end(items, font_width, x, n) == item_end(other, font_width, x, n),
    decreases n,
{
    if n > 0 {
        lemma_item_end_prefix(items, other, font_width, x, n - 1);
    }
}

/// The list goes on from where it starts by the widths of its items, which
/// are not negative.
pub proof fn lemma_item_end_shift(items: Seq<Seq<char>>, font_width: u32, x: int, n: int, m: int)
    requires
        0 <= n <= m <= items.len(),
    ensures
        item_end(items, font_width, x, n) == x + item_end(items, font_width, 0, n),
        item_end(items, font_width, 0, n) <= item_end(items, font_width, 0, m),
        0 <= item_end(items, font_width, 0, n),
    decreases m,
{
    if n > 0 {
        lemma_item_end_shift(items, font_width, x, n - 1, n - 1);
    }
    if m > n {
        lemma_item_end_shift(items, font_width, x, n, m - 1);
        assert(byte_len(items[m - 1]) * font_width >= 0) by (nonlinear_arith)
            requires
                byte_len(items[m - 1]) >= 0,
                font_width >= 0,
        ;
    } else if n > 0 {
        assert(byte_len(items[n - 1]) * font_width >= 0) by (nonlinear_arith)
            requires
                byte_len(items[n - 1]) >= 0,
                font_width >= 0,
        ;
    }
}

/// The byte length of the longest of `items`.
pub fn longest_of(items: &Vec<String>) -> (n: usize)
    ensures
        n == longest(items.deep_view()),
{
    let mut n: usize = 0;
    let mut i: usize = 0;
    proof {
        assert(items.deep_view().take(0) =~= Seq::<Seq<char>>::empty());
    }
    while i < items.len()
        invariant
            0 <= i <= items.len(),
            n == longest(items.deep_view().take(i as int)),
        decreases items.len() - i,
    {
        let len = byte_length(&items[i]);
        proof {
            let upto = items.deep_view().take(i + 1);
            assert(upto.drop_last() =~= items.deep_view().take(i as int));
            assert(upto.last() == items[i as int]@);
        }
        if len > n {
            n = len;
        }
        i = i + 1;
    }
    proof {
        assert(items.deep_view().take(items.len() as int) =~= items.deep_view());
    }
    n
}

/// The width that is left for the list of matches.
pub fn width_for_list(width: u32, font_width: u32, prompt: &String, longest: usize) -> (left: i128)
    ensures
        left == list_width(width, font_width, prompt@, longest as nat),
        left <= width,
{
    let font: i128 = font_width as i128;
    let prompt_len: i128 = byte_length(prompt) as i128;
    let long: i128 = longest as i128;
    proof {
        assert(0 <= prompt_len * font <= 0x1_0000_0000_0000_0000 * 0x1_0000_0000)
            by (nonlinear_arith)
            requires
                0 <= prompt_len <= 0x1_0000_0000_0000_0000,
                0 <= font <= 0x1_0000_0000,
        ;
        assert(0 <= font * long <= 0x1_0000_0000 * 0x1_0000_0000_0000_0000) by (nonlinear_arith)
            requires
                0 <= long <= 0x1_0000_0000_0000_0000,
                0 <= font <= 0x1_0000_0000,
        ;
    }
    width as i128 - 2 - (prompt_len * font + 4) - (font * long + 8) - (font + 4) - (font - 7)
}

/// The matches shown on page `page` of a list `limit` wide, and the number
/// of pages. Nothing comes back where the number of pages has no room in 32
/// bits.
pub fn items_page(matches: &Vec<String>, font_width: u32, limit: i128, page: u32) -> (r: Option<
    (Vec<String>, u32),
>)
    ensures
        match r {
            Some((items, pages)) => items.deep_view() == shown_on(
                matches.deep_view(),
                font_width,
                limit as int,
                page as int,
                matches.len() as int,
            ) && item_end(items.deep_view(), font_width, 0, items.len() as int) <= (if limit > 0 {
                limit as int
            } else {
                0
            }) && pages == laid_out(
                matches.deep_view(),
                font_width,
                limit as int,
                matches.len() as int,
            ).0 + 1,
            None => laid_out(matches.deep_view(), font_width, limit as int, matches.len() as int).0
                + 1 > u32::MAX,
        },
{
    let ghost all = matches.deep_view();
    let mut items: Vec<String> = Vec::new();
    let mut current: usize = 0;
    let mut x: i128 = 0;
    let mut i: usize = 0;
    while i < matches.len()
        invariant
            0 <= i <= matches.len(),
            all == matches.deep_view(),
            (current as int, x as int) == laid_out(all, font_width, limit as int, i as int),
            items.deep_view() == shown_on(all, font_width, limit as int, page as int, i as int),
            current <= i,
            0 <= x,
            item_end(items.deep_view(), font_width, 0, items.len() as int) <= (if limit > 0 {
                limit as int
            } else {
                0
            }),
            current == page ==> item_end(items.deep_view(), font_width, 0, items.len() as int)
                <= x,
            current < page ==> items.len() == 0,
        decreases matches.len() - i,
    {
        let len: i128 = byte_length(&matches[i]) as i128;
        let font: i128 = font_width as i128;
        proof {
            assert(0 <= len * font <= 0x1_0000_0000_0000_0000 * 0x1_0000_0000) by (nonlinear_arith)
                requires
                    0 <= len <= 0x1_0000_0000_0000_0000,
                    0 <= font <= 0x1_0000_0000,
            ;
            assert(all[i as int] == matches[i as int]@);
        }
        let wide: i128 = len * font + 10;
        let ghost shown = items.deep_view();
        if x > limit || wide > limit - x {
            current = current + 1;
            x = wide;
        } else {
            x = x + wide;
            if current as u128 == page as u128 {
                items.push(matches[i].clone());
                proof {
                    assert(items.deep_view() =~= shown.push(matches[i as int]@));
                    lemma_item_end_prefix(
                        items.deep_view(),
                        shown,
                        font_width,
                        0,
                        shown.len() as int,
                    );
                }
            }
        }
        i = i + 1;
    }
    if current >= 0xFFFF_FFFF {
        None
    } else {
        Some((items, (current + 1) as u32))
    }
}

/// One thing to draw.
#[derive(Clone, Debug)]
pub enum Draw {
    /// The background of the whole menu.
    Background,
    /// A text, `x` from the left, with `padding` before it, as a selected
    /// item or not.
    Text { x: i128, padding: u32, text: String, selected: bool },
    /// The cursor, `x` from the left.
    Cursor { x: i128 },
}

/// One thing to draw, as plain values.
pub enum DrawView {
    Background,
    Text { x: int, padding: u32, text: Seq<char>, selected: bool },
    Cursor { x: int },
}

impl View for Draw {
    type V = DrawView;

    open spec fn view(&self) -> DrawView {
        match self {
            Draw::Background => DrawView::Background,
            Draw::Text { x, padding, text, selected } => DrawView::Text {
                x: *x as int,
                padding: *padding,
                text: text@,
                selected: *selected,
            },
            Draw::Cursor { x } => DrawView::Cursor { x: *x as int },
        }
    }
}

/// What a list of things to draw holds.
pub open spec fn draw_views(plan: Seq<Draw>) -> Seq<DrawView> {
    Seq::new(plan.len(), |i: int| plan[i]@)
}

/// The first `n` of `items` drawn one behind the other from `x` on, the
/// selected one as such.
pub open spec fn item_draws(
    items: Seq<Seq<char>>,
    font_width: u32,
    x: int,
    selected: Seq<char>,
    n: int,
) -> Seq<DrawView>
    decreases n,
{
    if n <= 0 {
        Seq::empty()
    } else {
        item_draws(items, font_width, x, selected, n - 1).push(
            DrawView::Text {
                x: item_end(items, font_width, x, n - 1),
                padding: 5,
                text: items[n - 1],
                selected: items[n - 1] == selected,
            },
        )
    }
}

/// Where the input field starts: behind the margin and the prompt.
pub open spec fn input_start(prompt: Seq<char>, font_width: u32) -> int {
    if prompt.len() != 0 {
        2 + text_width(prompt, font_width) + 4
    } else {
        2
    }
}

/// What is drawn before the list of matches: the background, the prompt
/// where there is one, the text typed so far and the cursor in it.
pub open spec fn head_draws(status: StatusView, cursor: int, font_width: u32) -> Seq<DrawView> {
    let prompt = status.settings.prompt;
    let start = input_start(prompt, font_width);
    let first = if prompt.len() != 0 {
        seq![
            DrawView::Background,
            DrawView::Text { x: 2, padding: 5, text: prompt, selected: false },
        ]
    } else {
        seq![DrawView::Background]
    };
    first.push(DrawView::Text { x: start, padding: 0, text: status.text, selected: false }).push(
        DrawView::Cursor { x: start + cursor * font_width },
    )
}

/// What is drawn of the list of matches from `x` on: the arrow to the page
/// before where there is one, the arrow to the next page where there is
/// one, and the matches on the page shown.
pub open spec fn list_draws(status: StatusView, width: u32, font_width: u32, x: int) -> Seq<
    DrawView,
> {
    let limit = list_width(width, font_width, status.settings.prompt, longest(status.items));
    let n = status.matches.len() as int;
    let items = shown_on(status.matches, font_width, limit, status.page as int, n);
    let pages = laid_out(status.matches, font_width, limit, n).0 + 1;
    let back = if status.page > 0 {
        seq![DrawView::Text { x, padding: 5, text: "<"@, selected: false }]
    } else {
        Seq::empty()
    };
    let from = if status.page > 0 {
        x + font_width + 4
    } else {
        x
    };
    let on = if pages > status.page + 1 {
        back.push(DrawView::Text { x: width - font_width - 5, padding: 5, text: ">"@, selected: false })
    } else {
        back
    };
    on + item_draws(items, font_width, from, status.selected, items.len() as int)
}

/// What is to be drawn for the menu in state `status`, `width` wide, with
/// the cursor at byte `cursor`, in a font whose characters are `font_width`
/// wide. The list of matches is drawn only where the menu has no lines.
/// There is nothing to draw where the cursor stands inside a character or
/// behind the text, or where the number of pages has no room in 32 bits.
pub open spec fn menu_draws(status: StatusView, cursor: int, width: u32, font_width: u32) -> Option<
    Seq<DrawView>,
> {
    let limit = list_width(width, font_width, status.settings.prompt, longest(status.items));
    let pages = laid_out(status.matches, font_width, limit, status.matches.len() as int).0 + 1;
    if boundary_index(status.text, cursor) is None {
        None
    } else if status.settings.lines > 0 {
        Some(head_draws(status, cursor, font_width))
    } else if pages > u32::MAX {
        None
    } else {
        Some(
            head_draws(status, cursor, font_width) + list_draws(
                status,
                width,
                font_width,
                input_start(status.settings.prompt, font_width) + font_width * longest(
                    status.items,
                ) + 8,
            ),
        )
    }
}

/// What is to be drawn for the menu.
pub fn plan_menu(status: &Status, cursor: usize, width: u32, font_width: u32) -> (r: Option<
    Vec<Draw>,
>)
    ensures
        match r {
            Some(plan) => menu_draws(status@, cursor as int, width, font_width) == Some(
                draw_views(plan@),
            ),
            None => menu_draws(status@, cursor as int, width, font_width) is None,
        },
{
    let font: i128 = font_width as i128;
    let text = chars_of(status.text.as_str());
    if index_at(&text, cursor).is_none() {
        return None;
    }
    let prompt_len: i128 = byte_length(&status.settings.prompt) as i128;
    let long: i128 = longest_of(&status.items) as i128;
    proof {
        assert(0 <= prompt_len * font <= 0x1_0000_0000_0000_0000 * 0x1_0000_0000)
            by (nonlinear_arith)
            requires
                0 <= prompt_len <= 0x1_0000_0000_0000_0000,
                0 <= font <= 0x1_0000_0000,
        ;
        assert(0 <= font * long <= 0x1_0000_0000 * 0x1_0000_0000_0000_0000) by (nonlinear_arith)
            requires
                0 <= long <= 0x1_0000_0000_0000_0000,
                0 <= font <= 0x1_0000_0000,
        ;
        assert(0 <= cursor * font <= 0x1_0000_0000_0000_0000 * 0x1_0000_0000) by (nonlinear_arith)
            requires
                0 <= cursor <= 0x1_0000_0000_0000_0000,
                0 <= font <= 0x1_0000_0000,
        ;
    }
    let mut plan: Vec<Draw> = Vec::new();
    plan.push(Draw::Background);
    let mut x: i128 = 2;
    if !status.settings.prompt.as_str().is_empty() {
        plan.push(Draw::Text { x, padding: 5, text: status.settings.prompt.clone(), selected: false });
        x = x + prompt_len * font + 4;
    }
    plan.push(Draw::Text { x, padding: 0, text: status.text.clone(), selected: false });
    plan.push(Draw::Cursor { x: x + cursor as i128 * font });
    proof {
        assert(draw_views(plan@) =~= head_draws(status@, cursor as int, font_width));
    }
    if status.settings.lines > 0 {
        return Some(plan);
    }
    x = x + font * long + 8;
    let limit = width_for_list(width, font_width, &status.settings.prompt, longest_of(&status.items));
    let (items, pages) = match items_page(&status.matches, font_width, limit, status.page) {
        Some(found) => found,
        None => {
            return None;
        },
    };
    let ghost head = draw_views(plan@);
    let ghost list_from = x as int;
    if status.page > 0 {
        plan.push(Draw::Text { x, padding: 5, text: String::from_str("<"), selected: false });
        x = x + font + 4;
    }
    if pages as u64 > status.page as u64 + 1 {
        plan.push(
            Draw::Text {
                x: width as i128 - font - 5,
                padding: 5,
                text: String::from_str(">"),
                selected: false,
            },
        );
    }
    let ghost fixed = draw_views(plan@);
    let ghost from = x as int;
    let ghost shown = items.deep_view();
    let mut i: usize = 0;
    while i < items.len()
        invariant
            0 <= i <= items.len(),
            shown == items.deep_view(),
            font == font_width,
            x == item_end(shown, font_width, from, i as int),
            -0x4_0000_0000_0000_0000_0000_0000 <= from <= 0x4_0000_0000_0000_0000_0000_0000,
            item_end(shown, font_width, 0, shown.len() as int) <= 0x1_0000_0000,
            draw_views(plan@) == fixed + item_draws(
                shown,
                font_width,
                from,
                status.selected@,
                i as int,
            ),
        decreases items.len() - i,
    {
        let len: i128 = byte_length(&items[i]) as i128;
        proof {
            assert(0 <= len * font <= 0x1_0000_0000_0000_0000 * 0x1_0000_0000) by (nonlinear_arith)
                requires
                    0 <= len <= 0x1_0000_0000_0000_0000,
                    0 <= font <= 0x1_0000_0000,
            ;
            assert(shown[i as int] == items[i as int]@);
            lemma_item_end_shift(shown, font_width, from, i as int, i as int);
            lemma_item_end_shift(shown, font_width, from, i + 1, shown.len() as int);
        }
        let ghost before = draw_views(plan@);
        plan.push(
            Draw::Text {
                x,
                padding: 5,
                text: items[i].clone(),
                selected: items[i] == status.selected,
            },
        );
        proof {
            assert(draw_views(plan@) =~= before.push(
                DrawView::Text {
                    x: x as int,
                    padding: 5,
                    text: shown[i as int],
                    selected: shown[i as int] == status.selected@,
                },
            ));
        }
        x = x + (len * font + 10);
        i = i + 1;
    }
    proof {
        assert(fixed + item_draws(shown, font_width, from, status.selected@, items.len() as int)
            =~= head + list_draws(status@, width, font_width, list_from)) by {
            reveal_strlit("<");
            reveal_strlit(">");
        }
    }
    Some(plan)
}

} // verus!
