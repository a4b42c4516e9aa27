//! What the terminal view of an allocator shows, and how it reacts to keys.
use vstd::prelude::*;

verus! {

/// A part of the screen whose contents can be scrolled.
#[derive(Clone, Copy, Debug, PartialEq, Eq, Structural)]
pub enum Section {
    Workers,
    Slabs,
}

/// The keys that the view reacts to.
#[derive(Clone, Copy, Debug, PartialEq, Eq, Structural)]
pub enum Key {
    Quit,
    Left,
    Right,
    Down,
    Up,
    Other,
}

/// A part of the screen, in characters.
#[derive(Clone, Copy, Debug, PartialEq, Eq, Structural)]
pub struct Area {
    pub x: u16,
    pub y: u16,
    pub width: u16,
    pub height: u16,
}

/// A box that shows an item, or that items follow which there is no room to show.
#[derive(Clone, Copy, Debug, PartialEq, Eq, Structural)]
pub struct Tile {
    pub area: Area,
    pub item: Option<usize>,
}

/// The size of the box of a worker and of a slab.
pub const WORKER_WIDTH: u16 = 30;

pub const WORKER_HEIGHT: u16 = 5;

pub const SLAB_WIDTH: u16 = 14;

pub const SLAB_HEIGHT: u16 = 3;

/// The state of the view.
#[derive(Clone, Copy, Debug, PartialEq, Eq, Structural)]
pub struct App {
    pub worker_offset: usize,
    pub slab_offset: usize,
    pub selected_section: Section,
    pub exit: bool,
}

/// The first item shown, when `count` items are scrolled to `offset` and `per_row` fit: the
/// row is never left partly empty while there are items to fill it.
pub open spec fn first_shown(count: int, per_row: int, offset: int) -> int {
    if count <= per_row {
        0
    } else if offset + per_row > count {
        count - per_row
    } else {
        offset
    }
}

/// How many items are shown.
pub open spec fn num_shown(count: int, per_row: int) -> int {
    if count <= per_row {
        count
    } else {
        per_row
    }
}

/// The box at a place of the row. The first and the last box stand for the items beyond the
/// row, where there are any.
pub open spec fn tile_at(
    area: Area,
    width: int,
    height: int,
    count: int,
    per_row: int,
    first: int,
    place: int,
) -> Tile {
    Tile {
        area: Area {
            x: (area.x + place * width) as u16,
            y: area.y,
            width: width as u16,
            height: height as u16,
        },
        item: if place == 0 && first != 0 || place == per_row - 1 && first + place != count - 1 {
            None
        } else {
            Some((first + place) as usize)
        },
    }
}

/// Scrolling by one item, within `max` items. The offset wraps around at the end of its range.
pub open spec fn scrolled(offset: int, increment: bool, max: int) -> int {
    let moved = if increment {
        if offset == usize::MAX {
            0
        } else {
            offset + 1
        }
    } else if offset == 0 {
        0
    } else {
        offset - 1
    };
    if moved > max - 1 {
        max - 1
    } else {
        moved
    }
}

/// The boxes of a row.
fn tiles(area: Area, width: u16, height: u16, count: usize, offset: usize) -> (result: (
    Vec<Tile>,
    usize,
))
    requires
        width > 0,
        area.x + area.width <= u16::MAX,
    ensures
        ({
            let per_row = area.width as int / width as int;
            let first = first_shown(count as int, per_row, offset as int);
            &&& result.0@ == Seq::new(
                num_shown(count as int, per_row) as nat,
                |place: int|
                    tile_at(area, width as int, height as int, count as int, per_row, first, place),
            )
            &&& result.1 == if count as int > per_row {
                first
            } else {
                offset as int
            }
        }),
{
    let per_row: usize = (area.width / width) as usize;
    let mut new_offset = offset;
    // We will have a partial view if the number of items is greater than the number
    // of items that can fit in a row.
    let (first, shown) = if count > per_row {
        // Adjust the offset if necessary to avoid needing to scroll back many times.
        if offset > count - per_row {
            new_offset = count - per_row;
        }
        (new_offset, per_row)
    } else {
        (0usize, count)
    };
    let ghost target = Seq::new(
        shown as nat,
        |place: int|
            tile_at(
                area,
                width as int,
                height as int,
                count as int,
                per_row as int,
                first as int,
                place,
            ),
    );
    proof {
        vstd::arithmetic::div_mod::lemma_fundamental_div_mod(area.width as int, width as int);
    }
    let mut row: Vec<Tile> = Vec::new();
    let mut place: usize = 0;
    while place < shown
        invariant
            place <= shown,
            shown <= per_row,
            shown <= count,
            first + shown <= count,
            width > 0,
            per_row == area.width as int / width as int,
            width * per_row <= area.width,
            area.x + area.width <= u16::MAX,
            target == Seq::new(
                shown as nat,
                |place: int|
                    tile_at(
                        area,
                        width as int,
                        height as int,
                        count as int,
                        per_row as int,
                        first as int,
                        place,
                    ),
            ),
            row@ == target.take(place as int),
        decreases shown - place,
    {
        proof {
            vstd::arithmetic::mul::lemma_mul_inequality(
                place as int,
                per_row as int,
                width as int,
            );
            vstd::arithmetic::mul::lemma_mul_nonnegative(place as int, width as int);
            vstd::arithmetic::mul::lemma_mul_is_commutative(width as int, per_row as int);
        }
        let item = first + place;
        let shows = if (place == 0 && item != 0) || (place == per_row - 1 && item != count - 1) {
            None
        } else {
            Some(item)
        };
        row.push(
            Tile {
                area: Area { x: area.x + place as u16 * width, y: area.y, width, height },
                item: shows,
            },
        );
        place = place + 1;
        assert(row@ =~= target.take(place as int));
    }
    assert(target.take(shown as int) =~= target);
    (row, new_offset)
}

impl App {
    /// The view as it starts. Slabs are selected because there are usually more of those.
    pub fn new() -> (app: Self)
        ensures
            app == (App {
                worker_offset: 0,
                slab_offset: 0,
                selected_section: Section::Slabs,
                exit: false,
            }),
    {
        App { worker_offset: 0, slab_offset: 0, selected_section: Section::Slabs, exit: false }
    }

    /// Reacts to a key.
    pub fn handle_key_event(&mut self, key: Key, num_workers: u32, num_slabs: u32)
        requires
            key == Key::Left || key == Key::Right ==> old(self).num_selected(
                num_workers,
                num_slabs,
            ) > 0,
        ensures
            match key {
                Key::Quit => *final(self) == (App { exit: true, ..*old(self) }),
                Key::Left => *final(self) == old(self).after_scroll(false, num_workers, num_slabs),
                Key::Right => *final(self) == old(self).after_scroll(true, num_workers, num_slabs),
                Key::Down => *final(self) == old(self).after_select(),
                Key::Up => *final(self) == old(self).after_select(),
                Key::Other => *final(self) == *old(self),
            },
    {
        match key {
            Key::Quit => self.exit(),
            Key::Left => self.scroll(false, num_workers, num_slabs),
            Key::Right => self.scroll(true, num_workers, num_slabs),
            Key::Down => self.select(false),
            Key::Up => self.select(true),
            Key::Other => (),
        }
    }

    /// How many items the selected section has.
    pub open spec fn num_selected(self, num_workers: u32, num_slabs: u32) -> u32 {
        match self.selected_section {
            Section::Workers => num_workers,
            Section::Slabs => num_slabs,
        }
    }

    /// The view after scrolling the selected section.
    pub open spec fn after_scroll(self, increment: bool, num_workers: u32, num_slabs: u32) -> App {
        match self.selected_section {
            Section::Workers => App {
                worker_offset: scrolled(
                    self.worker_offset as int,
                    increment,
                    num_workers as int,
                ) as usize,
                ..self
            },
            Section::Slabs => App {
                slab_offset: scrolled(
                    self.slab_offset as int,
                    increment,
                    num_slabs as int,
                ) as usize,
                ..self
            },
        }
    }

    /// The view after selecting the other section.
    pub open spec fn after_select(self) -> App {
        App {
            selected_section: match self.selected_section {
                Section::Workers => Section::Slabs,
                Section::Slabs => Section::Workers,
            },
            ..self
        }
    }

    /// Scrolls the selected section by one item, within bounds.
    pub fn scroll(&mut self, increment: bool, num_workers: u32, num_slabs: u32)
        requires
            old(self).num_selected(num_workers, num_slabs) > 0,
        ensures
            *final(self) == old(self).after_scroll(increment, num_workers, num_slabs),
    {
        let (offset, max) = match self.selected_section {
            Section::Workers => (self.worker_offset, num_workers as usize),
            Section::Slabs => (self.slab_offset, num_slabs as usize),
        };
        let moved = if increment {
            offset.wrapping_add(1)
        } else if offset == 0 {
            0
        } else {
            offset - 1
        };
        // Make sure the offset is within bounds.
        let bounded = if moved > max - 1 {
            max - 1
        } else {
            moved
        };
        match self.selected_section {
            Section::Workers => {
                self.worker_offset = bounded;
            },
            Section::Slabs => {
                self.slab_offset = bounded;
            },
        }
    }

    /// Selects the other section.
    pub fn select(&mut self, _up: bool)
        ensures
            *final(self) == old(self).after_select(),
    {
        match self.selected_section {
            Section::Workers => {
                self.selected_section = Section::Slabs;
            },
            Section::Slabs => {
                self.selected_section = Section::Workers;
            },
        }
    }

    /// Ends the view.
    pub fn exit(&mut self)
        ensures
            *final(self) == (App { exit: true, ..*old(self) }),
    {
        self.exit = true;
    }

    /// The boxes of the workers.
    pub fn render_workers(&mut self, area: Area, num_workers: u32) -> (row: Vec<Tile>)
        requires
            area.x + area.width <= u16::MAX,
        ensures
            ({
                let per_row = area.width as int / WORKER_WIDTH as int;
                let count = num_workers as int;
                let first = first_shown(count, per_row, old(self).worker_offset as int);
                &&& row@ == Seq::new(
                    num_shown(count, per_row) as nat,
                    |place: int|
                        tile_at(
                            area,
                            WORKER_WIDTH as int,
                            WORKER_HEIGHT as int,
                            count,
                            per_row,
                            first,
                            place,
                        ),
                )
                &&& *final(self) == (App {
                    worker_offset: if count > per_row {
                        first as usize
                    } else {
                        old(self).worker_offset
                    },
                    ..*old(self)
                })
            }),
    {
        let (row, offset) = tiles(
            area,
            WORKER_WIDTH,
            WORKER_HEIGHT,
            num_workers as usize,
            self.worker_offset,
        );
        self.worker_offset = offset;
        row
    }

    /// The boxes of the slabs.
    pub fn render_slabs(&mut self, area: Area, num_slabs: u32) -> (row: Vec<Tile>)
        requires
            area.x + area.width <= u16::MAX,
        ensures
            ({
                let per_row = area.width as int / SLAB_WIDTH as int;
                let count = num_slabs as int;
                let first = first_shown(count, per_row, old(self).slab_offset as int);
                &&& row@ == Seq::new(
                    num_shown(count, per_row) as nat,
                    |place: int|
                        tile_at(
                            area,
                            SLAB_WIDTH as int,
                            SLAB_HEIGHT as int,
                            count,
                            per_row,
                            first,
                            place,
                        ),
                )
                &&& *final(self) == (App {
                    slab_offset: if count > per_row {
                        first as usize
                    } else {
                        old(self).slab_offset
                    },
                    ..*old(self)
                })
            }),
    {
        let (row, offset) = tiles(
            area,
            SLAB_WIDTH,
            SLAB_HEIGHT,
            num_slabs as usize,
            self.slab_offset,
        );
        self.slab_offset = offset;
        row
    }

    /// The titles of the two sections; the selected one is marked.
    pub fn workers_title(&self) -> (title: &'static str)
        ensures
            title@ == if self.selected_section == Section::Workers {
                "Workers*"@
            } else {
                "Workers"@
            },
    {
        if self.selected_section == Section::Workers {
            "Workers*"
        } else {
            "Workers"
        }
    }

    pub fn slabs_title(&self) -> (title: &'static str)
        ensures
            title@ == if self.selected_section == Section::Slabs {
                "Slabs*"@
            } else {
                "Slabs"@
            },
    {
        if self.selected_section == Section::Slabs {
            "Slabs*"
        } else {
            "Slabs"
        }
    }
}

/// Selecting twice selects the section that was selected before.
pub proof fn law_select_twice(app: App)
    ensures
        app.after_select().after_select() == app,
{
}

/// Scrolling stays within bounds, and scrolling forth and back returns to where it began,
/// unless it began at the end.
pub proof fn law_scroll(offset: int, max: int)
    requires
        0 <= offset < max <= u32::MAX,
    ensures
        0 <= scrolled(offset, true, max) < max,
        0 <= scrolled(offset, false, max) < max,
        offset < max - 1 ==> scrolled(scrolled(offset, true, max), false, max) == offset,
{
}

/// Scrolling goes on or back by exactly one item, and stops at the last and at the first.
pub proof fn law_scroll_by_one(offset: int, max: int)
    requires
        0 <= offset < max <= u32::MAX,
    ensures
        offset + 1 < max ==> scrolled(offset, true, max) == offset + 1,
        offset + 1 == max ==> scrolled(offset, true, max) == offset,
        offset > 0 ==> scrolled(offset, false, max) == offset - 1,
        offset == 0 ==> scrolled(offset, false, max) == 0,
{
}

/// An offset beyond the items is brought back to the last one, or to the first where it wraps.
pub proof fn law_scroll_comes_back(offset: int, max: int)
    requires
        0 < max <= offset <= usize::MAX,
        max <= u32::MAX,
    ensures
        scrolled(offset, true, max) == if offset == usize::MAX {
            0
        } else {
            max - 1
        },
        scrolled(offset, false, max) == max - 1,
{
}

/// Where repeated scrolling leads.
pub open spec fn scrolled_often(offset: int, increment: bool, max: int, times: nat) -> int
    decreases times,
{
    if times == 0 {
        offset
    } else {
        scrolled(
            scrolled_often(offset, increment, max, (times - 1) as nat),
            increment,
            max,
        )
    }
}

/// Every item can be reached: scrolling on from the first as often as there are items before it
/// leads to each, and scrolling back as often leads to the first again.
pub proof fn law_scroll_reaches(item: int, max: int)
    requires
        0 <= item < max <= u32::MAX,
    ensures
        scrolled_often(0, true, max, item as nat) == item,
        scrolled_often(item, false, max, item as nat) == 0,
    decreases item,
{
    if item > 0 {
        law_scroll_reaches(item - 1, max);
        lemma_scroll_back(item, max, item as nat);
    }
}

proof fn lemma_scroll_back(item: int, max: int, times: nat)
    requires
        0 <= times <= item < max <= u32::MAX,
    ensures
        scrolled_often(item, false, max, times) == item - times,
    decreases times,
{
    if times > 0 {
        lemma_scroll_back(item, max, (times - 1) as nat);
    }
}

/// A key moves the offset of the selected section and no other, and the keys for up and down
/// change which section is selected and nothing else.
pub proof fn law_keys(app: App, increment: bool, num_workers: u32, num_slabs: u32)
    ensures
        ({
            let after = app.after_scroll(increment, num_workers, num_slabs);
            let other = app.after_select();
            &&& after.selected_section == app.selected_section
            &&& after.exit == app.exit
            &&& app.selected_section == Section::Workers ==> after.slab_offset == app.slab_offset
            &&& app.selected_section == Section::Slabs ==> after.worker_offset == app.worker_offset
            &&& app.selected_section == Section::Slabs && app.slab_offset + 1 < num_slabs
                ==> after.slab_offset == if increment {
                app.slab_offset + 1
            } else if app.slab_offset > 0 {
                app.slab_offset - 1
            } else {
                0
            }
            &&& app.selected_section == Section::Workers && app.worker_offset + 1 < num_workers
                ==> after.worker_offset == if increment {
                app.worker_offset + 1
            } else if app.worker_offset > 0 {
                app.worker_offset - 1
            } else {
                0
            }
            &&& app.selected_section == Section::Slabs && app.slab_offset + 1 == num_slabs
                && increment ==> after == app
            &&& app.selected_section == Section::Workers && app.worker_offset + 1 == num_workers
                && increment ==> after == app
            &&& app.num_selected(num_workers, num_slabs) == if app.selected_section
                == Section::Workers {
                num_workers
            } else {
                num_slabs
            }
            &&& other.selected_section != app.selected_section
            &&& other.worker_offset == app.worker_offset
            &&& other.slab_offset == app.slab_offset
            &&& other.exit == app.exit
        }),
{
}

/// A row shows as many items as there are, or as many as fit, and starts with the one that it is
/// scrolled to, or earlier where the row would not be filled otherwise. Each box shows the item
/// of its place, but for the first and the last where items lie beyond them.
pub proof fn law_row(area: Area, width: int, height: int, count: int, offset: int, place: int)
    requires
        0 < width <= u16::MAX,
        0 <= height <= u16::MAX,
        0 <= count <= u32::MAX,
        0 <= offset,
        area.x + area.width <= u16::MAX,
        0 <= place < num_shown(count, area.width as int / width),
    ensures
        ({
            let per_row = area.width as int / width;
            let first = first_shown(count, per_row, offset);
            let tile = tile_at(area, width, height, count, per_row, first, place);
            &&& count <= per_row ==> num_shown(count, per_row) == count && first == 0
            &&& count > per_row ==> num_shown(count, per_row) == per_row
            &&& count > per_row && offset <= count - per_row ==> first == offset
            &&& count > per_row && offset > count - per_row ==> first == count - per_row
            &&& tile.area.x == area.x + place * width
            &&& tile.area.y == area.y
            &&& tile.area.width == width
            &&& tile.area.height == height
            &&& 0 < place < per_row - 1 ==> tile.item == Some((first + place) as usize)
            &&& first == 0 && first + per_row >= count ==> tile.item == Some(place as usize)
            &&& place == 0 && first > 0 ==> tile.item is None
            &&& place == per_row - 1 && first + per_row < count ==> tile.item is None
            &&& place == 0 && first == 0 && per_row > 1 ==> tile.item == Some(0usize)
            &&& place == per_row - 1 && place > 0 && first + per_row == count ==> tile.item == Some(
                (count - 1) as usize,
            )
        }),
{
    let per_row = area.width as int / width;
    vstd::arithmetic::div_mod::lemma_fundamental_div_mod(area.width as int, width);
    vstd::arithmetic::mul::lemma_mul_inequality(place + 1, per_row, width);
    vstd::arithmetic::mul::lemma_mul_is_distributive_add_other_way(width, place, 1);
    vstd::arithmetic::mul::lemma_mul_is_commutative(width, per_row);
    vstd::arithmetic::mul::lemma_mul_nonnegative(place, width);
}

/// The boxes of a row lie side by side within the area, and those that show items show items
/// that exist, in order.
pub proof fn law_tiles_fit(area: Area, width: int, height: int, count: int, offset: int, place: int)
    requires
        0 < width <= u16::MAX,
        0 <= height <= u16::MAX,
        0 <= count <= u32::MAX,
        0 <= offset < count,
        area.x + area.width <= u16::MAX,
        0 <= place < num_shown(count, area.width as int / width),
    ensures
        ({
            let per_row = area.width as int / width;
            let first = first_shown(count, per_row, offset);
            let tile = tile_at(area, width, height, count, per_row, first, place);
            &&& 0 <= first
            &&& first + num_shown(count, per_row) <= count
            &&& tile.area.x == area.x + place * width
            &&& tile.area.x + tile.area.width <= area.x + area.width
            &&& tile.item matches Some(item) ==> item == first + place && item < count
        }),
{
    let per_row = area.width as int / width;
    vstd::arithmetic::div_mod::lemma_fundamental_div_mod(area.width as int, width);
    vstd::arithmetic::mul::lemma_mul_inequality(place + 1, per_row, width);
    vstd::arithmetic::mul::lemma_mul_is_distributive_add_other_way(width, place, 1);
    vstd::arithmetic::mul::lemma_mul_is_commutative(width, per_row);
    vstd::arithmetic::mul::lemma_mul_nonnegative(place, width);
}

} // verus!
