//! The entities of the world: handles, tiles, rail segments, items and machines.

use vstd::prelude::*;
use vstd::std_specs::convert::FromSpecImpl;

verus! {

/// Handle of a drone; `usize::MAX` names nothing.
#[derive(Clone, Copy, PartialEq, Eq, Structural, Debug)]
pub struct DroneId(pub usize);

impl Default for DroneId {
    fn default() -> (r: Self)
        ensures
            r.0 == usize::MAX,
    {
        DroneId(usize::MAX)
    }
}

impl From<usize> for DroneId {
    fn from(item: usize) -> (r: Self) {
        DroneId(item)
    }
}

impl FromSpecImpl<usize> for DroneId {
    open spec fn obeys_from_spec() -> bool {
        true
    }

    open spec fn from_spec(item: usize) -> Self {
        DroneId(item)
    }
}

impl From<DroneId> for usize {
    fn from(id: DroneId) -> (r: Self) {
        id.0
    }
}

impl FromSpecImpl<DroneId> for usize {
    open spec fn obeys_from_spec() -> bool {
        true
    }

    open spec fn from_spec(id: DroneId) -> Self {
        id.0
    }
}

/// Handle of a projectile; `usize::MAX` names nothing.
#[derive(Clone, Copy, PartialEq, Eq, Structural, Debug)]
pub struct BulletId(pub usize);

impl Default for BulletId {
    fn default() -> (r: Self)
        ensures
            r.0 == usize::MAX,
    {
        BulletId(usize::MAX)
    }
}

impl From<usize> for BulletId {
    fn from(item: usize) -> (r: Self) {
        BulletId(item)
    }
}

impl FromSpecImpl<usize> for BulletId {
    open spec fn obeys_from_spec() -> bool {
        true
    }

    open spec fn from_spec(item: usize) -> Self {
        BulletId(item)
    }
}

impl From<BulletId> for usize {
    fn from(id: BulletId) -> (r: Self) {
        id.0
    }
}

impl FromSpecImpl<BulletId> for usize {
    open spec fn obeys_from_spec() -> bool {
        true
    }

    open spec fn from_spec(id: BulletId) -> Self {
        id.0
    }
}

/// Handle of a machine; `usize::MAX` names nothing.
#[derive(Clone, Copy, PartialEq, Eq, Structural, Debug)]
pub struct MachineId(pub usize);

impl Default for MachineId {
    fn default() -> (r: Self)
        ensures
            r.0 == usize::MAX,
    {
        MachineId(usize::MAX)
    }
}

impl From<usize> for MachineId {
    fn from(item: usize) -> (r: Self) {
        MachineId(item)
    }
}

impl FromSpecImpl<usize> for MachineId {
    open spec fn obeys_from_spec() -> bool {
        true
    }

    open spec fn from_spec(item: usize) -> Self {
        MachineId(item)
    }
}

impl From<MachineId> for usize {
    fn from(id: MachineId) -> (r: Self) {
        id.0
    }
}

impl FromSpecImpl<MachineId> for usize {
    open spec fn obeys_from_spec() -> bool {
        true
    }

    open spec fn from_spec(id: MachineId) -> Self {
        id.0
    }
}

/// Handle of an item type in the catalog; `usize::MAX` names nothing.
#[derive(Clone, Copy, PartialEq, Eq, Structural, Debug)]
pub struct ItemTypeId(pub usize);

impl Default for ItemTypeId {
    fn default() -> (r: Self)
        ensures
            r.0 == usize::MAX,
    {
        ItemTypeId(usize::MAX)
    }
}

impl From<usize> for ItemTypeId {
    fn from(item: usize) -> (r: Self) {
        ItemTypeId(item)
    }
}

impl FromSpecImpl<usize> for ItemTypeId {
    open spec fn obeys_from_spec() -> bool {
        true
    }

    open spec fn from_spec(item: usize) -> Self {
        ItemTypeId(item)
    }
}

impl From<ItemTypeId> for usize {
    fn from(id: ItemTypeId) -> (r: Self) {
        id.0
    }
}

impl FromSpecImpl<ItemTypeId> for usize {
    open spec fn obeys_from_spec() -> bool {
        true
    }

    open spec fn from_spec(id: ItemTypeId) -> Self {
        id.0
    }
}

/// Handle of an item pile lying on the ground; `usize::MAX` names nothing.
#[derive(Clone, Copy, PartialEq, Eq, Structural, Debug)]
pub struct FeralItemId(pub usize);

impl Default for FeralItemId {
    fn default() -> (r: Self)
        ensures
            r.0 == usize::MAX,
    {
        FeralItemId(usize::MAX)
    }
}

impl From<usize> for FeralItemId {
    fn from(item: usize) -> (r: Self) {
        FeralItemId(item)
    }
}

impl FromSpecImpl<usize> for FeralItemId {
    open spec fn obeys_from_spec() -> bool {
        true
    }

    open spec fn from_spec(item: usize) -> Self {
        FeralItemId(item)
    }
}

impl From<FeralItemId> for usize {
    fn from(id: FeralItemId) -> (r: Self) {
        id.0
    }
}

impl FromSpecImpl<FeralItemId> for usize {
    open spec fn obeys_from_spec() -> bool {
        true
    }

    open spec fn from_spec(id: FeralItemId) -> Self {
        id.0
    }
}

/// The numbers of the item types in the catalog.
pub const ITEM_DEAD_DRONE: usize = 0;

pub const ITEM_SCRAP: usize = 1;

pub const ITEM_BATTERY: usize = 2;

pub const ITEM_ALIGNITE: usize = 3;

pub const ITEM_GUNPOWDER: usize = 4;

pub const ITEM_BULLET: usize = 5;

pub const ITEM_CLUMP: usize = 6;

pub const ITEM_OBFUSCATOR: usize = 7;

/// The most rounds that the player's gun holds.
pub const PLAYER_GUN_AMMO_MAX: u32 = 132;

/// The most rounds that a turret holds.
pub const TURRET_AMMO_MAX: u32 = 69;

/// A tile of the world grid.
#[derive(Clone, Copy, PartialEq, Eq, Structural, Debug)]
pub struct Tile {
    pub x: u32,
    pub y: u32,
}

impl Default for Tile {
    fn default() -> (r: Self)
        ensures
            r == (Tile { x: 0, y: 0 }),
    {
        Tile { x: 0, y: 0 }
    }
}

/// The key under which the tile-keyed maps file a tile: both coordinates cut
/// to their low eight bits.
pub open spec fn tile_key_of(pos: Tile) -> (u8, u8) {
    ((pos.x % 256) as u8, (pos.y % 256) as u8)
}

/// The key under which the tile-keyed maps file a tile.
pub fn tile_key(pos: Tile) -> (r: (u8, u8))
    ensures
        r == tile_key_of(pos),
{
    ((pos.x % 256) as u8, (pos.y % 256) as u8)
}

/// One of the four directions on the grid.
#[derive(Clone, Copy, PartialEq, Eq, Structural, Debug)]
pub enum Dir {
    Right,
    Down,
    Left,
    Up,
}

/// How a rail segment bends at its midpoint, as seen along its direction.
#[derive(Clone, Copy, PartialEq, Eq, Structural, Debug)]
pub enum Bend {
    Forward,
    Right,
    Left,
}

/// One tile of the rail path: where it lies, the direction in which it is
/// entered, and how it bends at its midpoint.
#[derive(Clone, Copy, PartialEq, Eq, Structural, Debug)]
pub struct Rail {
    pub pos: Tile,
    pub dir: Dir,
    pub bend: Bend,
}

/// A catalog entry.
#[derive(Clone, Copy, Debug)]
pub struct ItemType {
    pub stackable: u32,
    pub name: &'static str,
    pub desc: &'static str,
}

impl Default for ItemType {
    fn default() -> (r: Self)
        ensures
            r.stackable == 0,
    {
        ItemType { stackable: 0, name: "", desc: "" }
    }
}

/// A number of items of one type. A count of 0 stands for nothing.
#[derive(Clone, Copy, PartialEq, Eq, Structural, Debug)]
pub struct ItemSlot {
    pub itemtype: ItemTypeId,
    pub count: u32,
}

impl Default for ItemSlot {
    fn default() -> (r: Self)
        ensures
            r == (ItemSlot { itemtype: ItemTypeId(usize::MAX), count: 0 }),
    {
        ItemSlot { itemtype: ItemTypeId(usize::MAX), count: 0 }
    }
}

/// The slots of a pile.
pub type Burger = [Option<ItemSlot>; 4];

/// A pile of items on a tile. Slot 0 is the front: items are taken from it
/// first, and new stacks go to the back.
#[derive(Clone, Copy, Debug)]
pub struct FeralItem {
    pub pos: Tile,
    pub slots: Burger,
}

impl Default for FeralItem {
    fn default() -> (r: Self)
        ensures
            r.pos == (Tile { x: 0, y: 0 }),
            r.slots@ == seq![None::<ItemSlot>, None, None, None],
    {
        let r = FeralItem { pos: Tile { x: 0, y: 0 }, slots: [None, None, None, None] };
        assert(r.slots@ =~= seq![None::<ItemSlot>, None, None, None]);
        r
    }
}

/// What a machine is and the state that goes with it.
#[derive(Clone, Copy, PartialEq, Eq, Structural, Debug)]
pub enum MachineSpec {
    Blank,
    Turret { ammo: u32, can_fire_time_us: u64 },
    Conveyor { item: ItemSlot, filter: bool, can_move_time_us: u64, can_dump_time_us: u64 },
}

/// A machine; `pos` is `None` while it is carried.
#[derive(Clone, Copy, PartialEq, Eq, Structural, Debug)]
pub struct Machine {
    pub pos: Option<Tile>,
    pub dir: Dir,
    pub spec: MachineSpec,
}

impl Default for Machine {
    fn default() -> (r: Self)
        ensures
            r == (Machine { pos: None, dir: Dir::Right, spec: MachineSpec::Blank }),
    {
        Machine { pos: None, dir: Dir::Right, spec: MachineSpec::Blank }
    }
}

/// What the player carries in construction mode.
#[derive(Clone, Copy, PartialEq, Eq, Structural, Debug)]
pub enum Drag {
    Nothing,
    Item(ItemSlot),
    Machine(MachineId),
}

impl Default for Drag {
    fn default() -> (r: Self)
        ensures
            r == Drag::Nothing,
    {
        Drag::Nothing
    }
}

/// The tool of the player: building, with what is carried, or the gun.
#[derive(Clone, Copy, PartialEq, Eq, Structural, Debug)]
pub enum ToolMode {
    Construct(Drag),
    GunPod,
}

impl Default for ToolMode {
    fn default() -> (r: Self)
        ensures
            r == ToolMode::GunPod,
    {
        ToolMode::GunPod
    }
}

/// The unit step of a direction: x grows to the right, y grows downwards.
pub open spec fn dir_step(dir: Dir) -> (int, int) {
    match dir {
        Dir::Right => (1, 0),
        Dir::Down => (0, 1),
        Dir::Left => (-1, 0),
        Dir::Up => (0, -1),
    }
}

/// The unit step of a direction, as x and y.
pub fn dir_to_ivec2(dir: &Dir) -> (r: (i32, i32))
    ensures
        (r.0 as int, r.1 as int) == dir_step(*dir),
{
    match dir {
        Dir::Right => (1, 0),
        Dir::Down => (0, 1),
        Dir::Left => (-1, 0),
        Dir::Up => (0, -1),
    }
}

/// What lies on a tile, as far as the player can act on it.
#[derive(Clone, Copy, PartialEq, Eq, Structural, Debug)]
pub enum TileThing {
    Nothing,
    Feral(FeralItemId),
    Machine(MachineId),
}

} // verus!
