//! The playing field's positions and directions, and the snake.

use vstd::prelude::*;
use std::collections::VecDeque;
use crate::constants::{BOARD_WIDTH, BOARD_HEIGHT};

verus! {

/// A cell of the playing field.
#[derive(Copy, Clone, Debug, PartialEq, Eq, Structural)]
pub struct Position {
    pub x: u8,
    pub y: u8,
}

/// One coordinate moved by `offset` on an axis of `max_val` cells: it stays
/// where it is when it would leave the axis from its first or its last
/// cell, and else goes round the axis.
pub open spec fn moved(val: int, offset: int, max_val: int) -> int {
    if (val == 0 && offset < 0) || (val >= max_val - 1 && offset > 0) {
        val
    } else {
        (val + offset) % max_val
    }
}

/// The middle of the playing field.
pub open spec fn centre() -> Position {
    Position { x: BOARD_WIDTH / 2, y: BOARD_HEIGHT / 2 }
}

/// A position moved by `(x, y)` on the playing field.
pub open spec fn moved_position(p: Position, x: int, y: int) -> Position {
    Position {
        x: moved(p.x as int, x, BOARD_WIDTH as int) as u8,
        y: moved(p.y as int, y, BOARD_HEIGHT as int) as u8,
    }
}

impl Position {
    /// The middle of the playing field.
    pub fn new() -> (r: Position)
        ensures
            r == centre(),
    {
        Position { x: BOARD_WIDTH / 2, y: BOARD_HEIGHT / 2 }
    }

    /// The cell `(x, y)`.
    pub fn new_xy(x: u8, y: u8) -> (r: Position)
        ensures
            r == (Position { x, y }),
    {
        Position { x, y }
    }

    /// The middle of the playing field moved by `(x, y)`.
    pub fn new_offset(x: i8, y: i8) -> (r: Position)
        ensures
            r == moved_position(centre(), x as int, y as int),
    {
        let mut pos = Position::new();
        pos.offset(x, y);
        pos
    }

    /// Moves the position by `(x, y)` on the playing field.
    pub fn offset(&mut self, x: i8, y: i8)
        ensures
            *final(self) == moved_position(*old(self), x as int, y as int),
    {
        self.x = Position::calc_offset(self.x, x, BOARD_WIDTH);
        self.y = Position::calc_offset(self.y, y, BOARD_HEIGHT);
    }

    /// One coordinate moved by `offset` on an axis of `max_val` cells.
    pub fn calc_offset(val: u8, offset: i8, max_val: u8) -> (r: u8)
        requires
            max_val > 0,
        ensures
            r == moved(val as int, offset as int, max_val as int),
            val < max_val ==> r < max_val,
    {
        if (val == 0 && offset < 0) || (val >= max_val - 1 && offset > 0) {
            val
        } else {
            let span: i32 = max_val as i32;
            let lifted: i32 = val as i32 + offset as i32 + 128 * span;
            proof {
                vstd::arithmetic::div_mod::lemma_mod_multiples_vanish(128, val as int + offset as int, span as int);
                vstd::arithmetic::div_mod::lemma_mod_bound(lifted as int, span as int);
                assert(128 * span + (val as int + offset as int) == lifted);
            }
            (lifted % span) as u8
        }
    }
}

/// The four ways to go.
#[derive(Copy, Clone, Debug, PartialEq, Eq, Structural)]
pub enum Direction {
    UP,
    DOWN,
    LEFT,
    RIGHT,
}

/// The way back.
pub open spec fn opposite_of(d: Direction) -> Direction {
    match d {
        Direction::UP => Direction::DOWN,
        Direction::DOWN => Direction::UP,
        Direction::LEFT => Direction::RIGHT,
        Direction::RIGHT => Direction::LEFT,
    }
}

impl Direction {
    /// The way back. The direction itself stays as it is.
    pub fn opposite(&mut self) -> (r: Direction)
        ensures
            r == opposite_of(*old(self)),
            *final(self) == *old(self),
    {
        match self {
            Direction::UP => Direction::DOWN,
            Direction::DOWN => Direction::UP,
            Direction::LEFT => Direction::RIGHT,
            Direction::RIGHT => Direction::LEFT,
        }
    }
}

/// The way back of the way back is the way itself.
pub proof fn lemma_opposite_twice(d: Direction)
    ensures
        opposite_of(opposite_of(d)) == d,
{
}

/// One cell of the snake, or the food. How it is drawn is left to whoever
/// draws it.
#[derive(Copy, Clone, Debug, PartialEq, Eq, Structural)]
pub struct Block {
    pub position: Position,
}

/// The snake: its cells from the head to the tail, the way it goes, whether
/// it lives, and whether it has just eaten.
pub struct Snake {
    pub body: VecDeque<Block>,
    pub direction: Direction,
    pub alive: bool,
    pub eat: bool,
}

/// The step in `x` that a direction stands for.
pub open spec fn step_x(d: Direction) -> int {
    match d {
        Direction::RIGHT => 1,
        Direction::LEFT => -1,
        _ => 0,
    }
}

/// The step in `y` that a direction stands for. `UP` leads to smaller `y`.
pub open spec fn step_y(d: Direction) -> int {
    match d {
        Direction::UP => -1,
        Direction::DOWN => 1,
        _ => 0,
    }
}

/// The cell that the head of the snake reaches next. At a wall it is the
/// head's own cell.
pub open spec fn next_head(body: Seq<Block>, d: Direction) -> Position {
    moved_position(body[0].position, step_x(d), step_y(d))
}

/// One of the snake's cells lies on `pos`.
pub open spec fn on_body(body: Seq<Block>, pos: Position) -> bool {
    exists|i: int| 0 <= i < body.len() && (#[trigger] body[i]).position == pos
}

/// The snake after it has moved one cell on: a new head, and the tail gone.
pub open spec fn crawled(body: Seq<Block>, d: Direction) -> Seq<Block> {
    seq![Block { position: next_head(body, d) }] + body.drop_last()
}

/// The snake after it has eaten at `pos`: a new head, and the tail stays.
pub open spec fn fed(body: Seq<Block>, pos: Position) -> Seq<Block> {
    seq![Block { position: pos }] + body
}

impl Snake {
    /// The snake has a head.
    pub open spec fn wf(&self) -> bool {
        self.body@.len() >= 1
    }

    /// A snake of three cells in the middle of the field, heading right.
    pub fn new() -> (r: Snake)
        ensures
            r.wf(),
            r.body@ == seq![
                Block { position: centre() },
                Block { position: moved_position(centre(), -1, 0) },
                Block { position: moved_position(centre(), -2, 0) },
            ],
            r.direction == Direction::RIGHT,
            r.alive,
            !r.eat,
    {
        let mut body: VecDeque<Block> = VecDeque::new();
        body.push_back(Block { position: Position::new() });
        body.push_back(Block { position: Position::new_offset(-1, 0) });
        body.push_back(Block { position: Position::new_offset(-2, 0) });
        assert(body@ =~= seq![
            Block { position: centre() },
            Block { position: moved_position(centre(), -1, 0) },
            Block { position: moved_position(centre(), -2, 0) },
        ]);
        Snake { body, direction: Direction::RIGHT, alive: true, eat: false }
    }

    /// Turns the snake to `dir`, unless that is the way back.
    pub fn update(&mut self, dir: Direction)
        ensures
            final(self).direction == if old(self).direction == opposite_of(dir) {
                old(self).direction
            } else {
                dir
            },
            final(self).body@ == old(self).body@,
            final(self).alive == old(self).alive,
            final(self).eat == old(self).eat,
    {
        let mut dir = dir;
        if self.direction == dir.opposite() {
        } else {
            self.direction = dir;
        }
    }

    /// Moves the snake if it lives: it dies where its next cell is its own
    /// head (a wall) or one of its cells; it eats where the next cell is
    /// the food; else it crawls on.
    pub fn perform_next(&mut self, food_pos: &mut Position)
        requires
            old(self).wf(),
        ensures
            *final(food_pos) == *old(food_pos),
            final(self).direction == old(self).direction,
            final(self).wf(),
            ({
                let body = old(self).body@;
                let next = next_head(body, old(self).direction);
                if !old(self).alive {
                    final(self).body@ == body && !final(self).alive && final(self).eat == old(self).eat
                } else if on_body(body, next) {
                    final(self).body@ == body && !final(self).alive && final(self).eat == old(self).eat
                } else if next == *old(food_pos) {
                    final(self).body@ == fed(body, next) && final(self).alive && final(self).eat
                } else {
                    final(self).body@ == crawled(body, old(self).direction) && final(self).alive && final(self).eat
                        == old(self).eat
                }
            }),
    {
        if self.alive {
            let next_pos = self.next_head_pos();
            if self.check_collide_wall(next_pos) || self.check_collide_body(next_pos) {
                self.alive = false;
            } else if self.check_eat_food(next_pos, *food_pos) {
                self.eat_next(food_pos);
                self.eat = true;
            } else {
                self.move_next();
            }
        }
    }

    /// The cell that the head reaches next.
    pub fn next_head_pos(&mut self) -> (r: Position)
        requires
            old(self).wf(),
        ensures
            r == next_head(old(self).body@, old(self).direction),
            final(self).body@ == old(self).body@,
            final(self).direction == old(self).direction,
            final(self).alive == old(self).alive,
            final(self).eat == old(self).eat,
    {
        let mut current_head = self.body[0].position;
        match self.direction {
            Direction::RIGHT => current_head.offset(1, 0),
            Direction::UP => current_head.offset(0, -1),
            Direction::LEFT => current_head.offset(-1, 0),
            Direction::DOWN => current_head.offset(0, 1),
        }
        current_head
    }

    /// Whether `next_pos` is the head's own cell: the head stands at a wall
    /// and did not get on.
    pub fn check_collide_wall(&self, next_pos: Position) -> (r: bool)
        requires
            self.wf(),
        ensures
            r == (self.body@[0].position == next_pos),
    {
        self.body[0].position == next_pos
    }

    /// Whether one of the snake's cells lies on `pos`.
    pub fn check_collide_body(&self, pos: Position) -> (r: bool)
        ensures
            r == on_body(self.body@, pos),
    {
        let mut i: usize = 0;
        while i < self.body.len()
            invariant
                i <= self.body@.len(),
                forall|j: int| 0 <= j < i ==> (#[trigger] self.body@[j]).position != pos,
            decreases self.body@.len() - i,
        {
            if self.body[i].position == pos {
                return true;
            }
            i += 1;
        }
        false
    }

    /// Whether the food lies on `next_pos`.
    pub fn check_eat_food(&self, next_pos: Position, food_pos: Position) -> (r: bool)
        ensures
            r == (next_pos == food_pos),
    {
        next_pos == food_pos
    }

    /// The snake crawls on by one cell.
    pub fn move_next(&mut self)
        requires
            old(self).wf(),
        ensures
            final(self).body@ == crawled(old(self).body@, old(self).direction),
            final(self).direction == old(self).direction,
            final(self).alive == old(self).alive,
            final(self).eat == old(self).eat,
    {
        let head = self.next_head_pos();
        let _ = self.body.pop_back();
        self.body.push_front(Block { position: head });
        assert(self.body@ =~= crawled(old(self).body@, old(self).direction));
    }

    /// The snake grows by a new head on `pos`.
    pub fn eat_next(&mut self, pos: &mut Position)
        ensures
            *final(pos) == *old(pos),
            final(self).body@ == fed(old(self).body@, *old(pos)),
            final(self).direction == old(self).direction,
            final(self).alive == old(self).alive,
            final(self).eat == old(self).eat,
    {
        let head = Block { position: *pos };
        self.body.push_front(head);
    }
}

/// The snake would die on `pos`: it is the head's own cell or another of
/// the snake's cells.
pub open spec fn dead_at(body: Seq<Block>, pos: Position) -> bool {
    body[0].position == pos || on_body(body, pos)
}

/// The direction that a number stands for: 0 for right, 1 for up, 2 for
/// left and 3 for down; any other number stands for `current`.
pub open spec fn direction_of(index: int, current: Direction) -> Direction {
    if index == 0 {
        Direction::RIGHT
    } else if index == 1 {
        Direction::UP
    } else if index == 2 {
        Direction::LEFT
    } else if index == 3 {
        Direction::DOWN
    } else {
        current
    }
}

/// The number of steps from the head to `food`, walls and snake aside.
pub open spec fn food_distance(body: Seq<Block>, food: Position) -> int {
    let head = body[0].position;
    (if head.x >= food.x { head.x - food.x } else { food.x - head.x }) + (if head.y >= food.y {
        head.y - food.y
    } else {
        food.y - head.y
    })
}

/// What the snake senses, for the four ways right, up, left and down in
/// turn: whether it would die on the next cell that way, and whether the
/// food lies that way on the head's row or column. Food with a greater `y`
/// than the head counts as lying up.
pub open spec fn senses(body: Seq<Block>, food: Position) -> Seq<bool> {
    let head = body[0].position;
    seq![
        dead_at(body, moved_position(head, 1, 0)),
        food.y == head.y && food.x > head.x,
        dead_at(body, moved_position(head, 0, -1)),
        food.x == head.x && food.y > head.y,
        dead_at(body, moved_position(head, -1, 0)),
        food.y == head.y && food.x < head.x,
        dead_at(body, moved_position(head, 0, 1)),
        food.x == head.x && food.y < head.y,
    ]
}

impl Snake {
    /// The direction that `index` stands for; the snake's own for a number
    /// that stands for none.
    pub fn get_direction_from_index(&self, index: usize) -> (r: Direction)
        ensures
            r == direction_of(index as int, self.direction),
    {
        match index {
            0 => Direction::RIGHT,
            1 => Direction::UP,
            2 => Direction::LEFT,
            3 => Direction::DOWN,
            _ => self.direction,
        }
    }

    /// The number of steps from the head to `food`.
    pub fn get_food_dist(&self, food: Position) -> (r: i64)
        requires
            self.wf(),
        ensures
            r == food_distance(self.body@, food),
    {
        let head = self.body[0].position;
        let dist_x: i64 = if head.x >= food.x { (head.x - food.x) as i64 } else { (food.x - head.x) as i64 };
        let dist_y: i64 = if head.y >= food.y { (head.y - food.y) as i64 } else { (food.y - head.y) as i64 };
        dist_x + dist_y
    }

    /// Whether the snake would die on `pos`.
    pub fn get_pos_dead(&self, pos: Position) -> (r: bool)
        requires
            self.wf(),
        ensures
            r == dead_at(self.body@, pos),
    {
        self.check_collide_wall(pos) || self.check_collide_body(pos)
    }

    /// What the snake senses of the walls, of itself and of the food.
    pub fn get_nn_inputs(&self, food: Position) -> (r: Vec<bool>)
        requires
            self.wf(),
        ensures
            r@ == senses(self.body@, food),
    {
        let head_pos = self.body[0].position;

        let mut pos_right = head_pos;
        pos_right.offset(1, 0);
        let right_dead = self.get_pos_dead(pos_right);
        let right_food = food.y == head_pos.y && food.x > head_pos.x;

        let mut pos_up = head_pos;
        pos_up.offset(0, -1);
        let up_dead = self.get_pos_dead(pos_up);
        let up_food = food.x == head_pos.x && food.y > head_pos.y;

        let mut pos_left = head_pos;
        pos_left.offset(-1, 0);
        let left_dead = self.get_pos_dead(pos_left);
        let left_food = food.y == head_pos.y && food.x < head_pos.x;

        let mut pos_down = head_pos;
        pos_down.offset(0, 1);
        let down_dead = self.get_pos_dead(pos_down);
        let down_food = food.x == head_pos.x && food.y < head_pos.y;

        let mut inputs: Vec<bool> = Vec::new();
        inputs.push(right_dead);
        inputs.push(right_food);
        inputs.push(up_dead);
        inputs.push(up_food);
        inputs.push(left_dead);
        inputs.push(left_food);
        inputs.push(down_dead);
        inputs.push(down_food);
        assert(inputs@ =~= senses(self.body@, food));
        inputs
    }
}

/// A snake that crawls on keeps its length, and one that eats gets one cell
/// longer.
pub proof fn lemma_snake_length(body: Seq<Block>, d: Direction, pos: Position)
    requires
        body.len() >= 1,
    ensures
        crawled(body, d).len() == body.len(),
        fed(body, pos).len() == body.len() + 1,
{
}

} // verus!
