//! The screens around the game: the menu, the settings and what a key
//! stroke does on each of them.

use vstd::prelude::*;
use vstd::std_specs::convert::FromSpecImpl;
use crate::game::{GameOverReason, Move};

verus! {

/// The tick length, in milliseconds, at the highest animation speed.
pub const BASE_TICK_RATE: u64 = 40;

/// The tile value that wins the game.
pub const WIN_VALUE: u32 = 2048;

/// A line of the settings screen.
#[derive(Clone, Copy, Debug, PartialEq, Eq, Structural)]
pub enum SettingsItem {
    GameSize,
    AnimationSpeed,
}

impl SettingsItem {
    /// The line on which the item stands, counted from 1.
    pub open spec fn line(self) -> u16 {
        match self {
            SettingsItem::GameSize => 1,
            SettingsItem::AnimationSpeed => 2,
        }
    }

    /// The item on line `n`, where line 0 is the last line and every line
    /// past the last is the first.
    pub open spec fn at(n: u16) -> SettingsItem {
        if n == 0 || n == 2 {
            SettingsItem::AnimationSpeed
        } else {
            SettingsItem::GameSize
        }
    }

    /// The line on which the item stands, counted from 1.
    pub fn number(self) -> (n: u16)
        ensures
            n == self.line(),
    {
        match self {
            SettingsItem::GameSize => 1,
            SettingsItem::AnimationSpeed => 2,
        }
    }

    /// The text shown for the item.
    pub fn name(self) -> (s: String)
        ensures
            s@ == (match self {
                SettingsItem::GameSize => "GameSize"@,
                SettingsItem::AnimationSpeed => "AnimationSpeed"@,
            }),
    {
        match self {
            SettingsItem::GameSize => "GameSize".to_owned(),
            SettingsItem::AnimationSpeed => "AnimationSpeed".to_owned(),
        }
    }
}

impl From<u16> for SettingsItem {
    fn from(n: u16) -> (item: Self) {
        match n {
            0 => SettingsItem::AnimationSpeed,
            2 => SettingsItem::AnimationSpeed,
            _ => SettingsItem::GameSize,
        }
    }
}

impl FromSpecImpl<u16> for SettingsItem {
    open spec fn obeys_from_spec() -> bool {
        true
    }

    open spec fn from_spec(n: u16) -> Self {
        SettingsItem::at(n)
    }
}

/// What the player has chosen on the settings screen.
#[derive(Clone, Copy, Debug)]
pub struct Settings {
    game_size: u16,
    animation_speed: u16,
    active_item: SettingsItem,
}

/// The board size after the next one: from 4 up to 8, then 4 again.
pub open spec fn next_game_size(size: u16) -> u16 {
    if (size + 1) % 9 > 4 {
        ((size + 1) % 9) as u16
    } else {
        4
    }
}

/// The animation speed after the next one: from 1 up to 3, then 1 again.
pub open spec fn next_animation_speed(speed: u16) -> u16 {
    if (speed + 1) % 4 > 1 {
        ((speed + 1) % 4) as u16
    } else {
        1
    }
}

impl Settings {
    /// The side of the board, in cells.
    pub closed spec fn game_size(self) -> u16 {
        self.game_size
    }

    /// The animation speed, 3 being the fastest.
    pub closed spec fn animation_speed(self) -> u16 {
        self.animation_speed
    }

    /// The line that is highlighted.
    pub closed spec fn active_item(self) -> SettingsItem {
        self.active_item
    }

    #[verifier::type_invariant]
    spec fn in_range(self) -> bool {
        4 <= self.game_size <= 8 && 1 <= self.animation_speed <= 3
    }

    /// The settings of a first start: a board of 4 by 4, the highest speed.
    pub fn new() -> (s: Self)
        ensures
            s.game_size() == 4,
            s.animation_speed() == 3,
            s.active_item() == SettingsItem::GameSize,
    {
        Self { game_size: 4, animation_speed: 3, active_item: SettingsItem::GameSize }
    }

    /// Moves the setting `item` on to its next value.
    pub fn update_settings(&mut self, item: SettingsItem)
        ensures
            final(self).active_item() == old(self).active_item(),
            final(self).game_size() == (if item == SettingsItem::GameSize {
                next_game_size(old(self).game_size())
            } else {
                old(self).game_size()
            }),
            final(self).animation_speed() == (if item == SettingsItem::AnimationSpeed {
                next_animation_speed(old(self).animation_speed())
            } else {
                old(self).animation_speed()
            }),
    {
        proof {
            use_type_invariant(&*self);
        }
        match item {
            SettingsItem::GameSize => {
                let next: u16 = (self.game_size + 1) % 9;
                self.game_size = if next > 4 {
                    next
                } else {
                    4
                };
            },
            SettingsItem::AnimationSpeed => {
                let next: u16 = (self.animation_speed + 1) % 4;
                self.animation_speed = if next > 1 {
                    next
                } else {
                    1
                };
            },
        }
    }

    /// The value of the setting `item`: a board size from 4 to 8, or a
    /// speed from 1 to 3.
    pub fn get_value(&self, item: SettingsItem) -> (value: u16)
        ensures
            value == (match item {
                SettingsItem::GameSize => self.game_size(),
                SettingsItem::AnimationSpeed => self.animation_speed(),
            }),
            4 <= self.game_size() <= 8,
            1 <= self.animation_speed() <= 3,
    {
        proof {
            use_type_invariant(self);
        }
        match item {
            SettingsItem::GameSize => self.game_size,
            SettingsItem::AnimationSpeed => self.animation_speed,
        }
    }

    /// The line that is highlighted.
    pub fn active(&self) -> (item: SettingsItem)
        ensures
            item == self.active_item(),
    {
        self.active_item
    }

    /// Highlights another line.
    pub fn select(&mut self, item: SettingsItem)
        ensures
            final(self).active_item() == item,
            final(self).game_size() == old(self).game_size(),
            final(self).animation_speed() == old(self).animation_speed(),
    {
        proof {
            use_type_invariant(&*self);
        }
        self.active_item = item;
    }

    /// The length of a tick in milliseconds: the slower the animation, the
    /// longer.
    pub fn tick_rate(&self) -> (millis: u64)
        ensures
            millis == (4 - self.animation_speed()) * BASE_TICK_RATE,
            BASE_TICK_RATE <= millis <= 3 * BASE_TICK_RATE,
    {
        proof {
            use_type_invariant(self);
        }
        (4 - self.animation_speed) as u64 * BASE_TICK_RATE
    }
}

/// A line of the menu.
#[derive(Clone, Copy, Debug, PartialEq, Eq, Structural)]
pub enum MenuItem {
    Play,
    Reset,
    Settings,
    Exit,
}

impl MenuItem {
    /// The line on which the item stands, counted from 1.
    pub open spec fn line(self) -> u16 {
        match self {
            MenuItem::Play => 1,
            MenuItem::Reset => 2,
            MenuItem::Settings => 3,
            MenuItem::Exit => 4,
        }
    }

    /// The item on line `n`, where line 0 is the last line and every line
    /// past the last is the first.
    pub open spec fn at(n: u16) -> MenuItem {
        if n == 0 || n == 4 {
            MenuItem::Exit
        } else if n == 2 {
            MenuItem::Reset
        } else if n == 3 {
            MenuItem::Settings
        } else {
            MenuItem::Play
        }
    }

    /// The line on which the item stands, counted from 1.
    pub fn number(self) -> (n: u16)
        ensures
            n == self.line(),
    {
        match self {
            MenuItem::Play => 1,
            MenuItem::Reset => 2,
            MenuItem::Settings => 3,
            MenuItem::Exit => 4,
        }
    }

    /// The text shown for the item.
    pub fn name(self) -> (s: String)
        ensures
            s@ == (match self {
                MenuItem::Play => "Play"@,
                MenuItem::Reset => "Reset"@,
                MenuItem::Settings => "Settings"@,
                MenuItem::Exit => "Exit"@,
            }),
    {
        match self {
            MenuItem::Play => "Play".to_owned(),
            MenuItem::Reset => "Reset".to_owned(),
            MenuItem::Settings => "Settings".to_owned(),
            MenuItem::Exit => "Exit".to_owned(),
        }
    }
}

impl From<u16> for MenuItem {
    fn from(n: u16) -> (item: Self) {
        match n {
            0 => MenuItem::Exit,
            2 => MenuItem::Reset,
            3 => MenuItem::Settings,
            4 => MenuItem::Exit,
            _ => MenuItem::Play,
        }
    }
}

impl FromSpecImpl<u16> for MenuItem {
    open spec fn obeys_from_spec() -> bool {
        true
    }

    open spec fn from_spec(n: u16) -> Self {
        MenuItem::at(n)
    }
}

/// How a game has ended.
#[derive(Clone, Copy, Debug, PartialEq, Eq, Structural)]
pub enum InfoItem {
    GameLost,
    GameWon,
}

/// What is on the screen.
#[derive(Clone, Copy, Debug, PartialEq, Eq, Structural)]
pub enum Screen {
    Menu(MenuItem),
    Game,
    Settings,
    Info(InfoItem),
}

/// A key stroke, as far as the program tells keys apart.
#[derive(Clone, Copy, Debug, PartialEq, Eq, Structural)]
pub enum Key {
    Char(char),
    Up,
    Down,
    Left,
    Right,
    Enter,
    Esc,
    Other,
}

/// What the program has to do after an event, beside showing the screen.
#[derive(Clone, Copy, Debug, PartialEq, Eq, Structural)]
pub enum Action {
    /// Nothing.
    Stay,
    /// Leave the program.
    Quit,
    /// Replace the grid by a new one of the size in the settings.
    NewGame,
    /// Run the grid for one tick with this command.
    Turn(Option<Move>),
}

impl Key {
    /// The key moves the highlight one line up.
    pub open spec fn is_up(self) -> bool {
        self == Key::Up || self == Key::Char('w')
    }

    /// The key moves the highlight one line down.
    pub open spec fn is_down(self) -> bool {
        self == Key::Down || self == Key::Char('s')
    }

    /// The direction that the key asks for on the game screen.
    pub open spec fn direction(self) -> Option<Move> {
        match self {
            Key::Up => Some(Move::Up),
            Key::Down => Some(Move::Down),
            Key::Left => Some(Move::Left),
            Key::Right => Some(Move::Right),
            Key::Char(c) => if c == 'w' {
                Some(Move::Up)
            } else if c == 's' {
                Some(Move::Down)
            } else if c == 'a' {
                Some(Move::Left)
            } else if c == 'd' {
                Some(Move::Right)
            } else {
                None
            },
            _ => None,
        }
    }
}

/// The direction that `key` asks for on the game screen.
pub fn direction_of(key: Key) -> (mv: Option<Move>)
    ensures
        mv == key.direction(),
{
    match key {
        Key::Char('w') | Key::Up => Some(Move::Up),
        Key::Char('s') | Key::Down => Some(Move::Down),
        Key::Char('a') | Key::Left => Some(Move::Left),
        Key::Char('d') | Key::Right => Some(Move::Right),
        _ => None,
    }
}

/// The screen and the action that follow a key stroke.
///
/// `q` leaves the program from every screen. In the menu and the settings
/// the highlight moves up and down and wraps around; Enter takes the
/// highlighted line. Esc leaves the menu for good and every other screen for
/// the menu. On the game screen every other key is a turn, with the
/// direction that the key stands for, if any.
pub open spec fn key_outcome(screen: Screen, active: SettingsItem, key: Key) -> (Screen, Action) {
    if key == Key::Char('q') {
        (screen, Action::Quit)
    } else {
        match screen {
            Screen::Menu(item) => {
                if key.is_up() {
                    (Screen::Menu(MenuItem::at((item.line() - 1) as u16)), Action::Stay)
                } else if key.is_down() {
                    (Screen::Menu(MenuItem::at((item.line() + 1) as u16)), Action::Stay)
                } else if key == Key::Enter {
                    match item {
                        MenuItem::Play => (Screen::Game, Action::Stay),
                        MenuItem::Reset => (Screen::Game, Action::NewGame),
                        MenuItem::Settings => (Screen::Settings, Action::Stay),
                        MenuItem::Exit => (screen, Action::Quit),
                    }
                } else if key == Key::Esc {
                    (screen, Action::Quit)
                } else {
                    (screen, Action::Stay)
                }
            },
            Screen::Game => {
                if key == Key::Esc {
                    (Screen::Menu(MenuItem::Play), Action::Stay)
                } else {
                    (Screen::Game, Action::Turn(key.direction()))
                }
            },
            Screen::Settings => {
                if key == Key::Enter && active == SettingsItem::GameSize {
                    (screen, Action::NewGame)
                } else if key == Key::Esc {
                    (Screen::Menu(MenuItem::Play), Action::Stay)
                } else {
                    (screen, Action::Stay)
                }
            },
            Screen::Info(_) => {
                if key == Key::Enter {
                    (Screen::Game, Action::NewGame)
                } else if key == Key::Esc {
                    (Screen::Menu(MenuItem::Play), Action::Stay)
                } else {
                    (screen, Action::Stay)
                }
            },
        }
    }
}

/// The line of the settings screen that is highlighted after a key stroke.
pub open spec fn key_selects(screen: Screen, active: SettingsItem, key: Key) -> SettingsItem {
    if key != Key::Char('q') && screen == Screen::Settings && key.is_up() {
        SettingsItem::at((active.line() - 1) as u16)
    } else if key != Key::Char('q') && screen == Screen::Settings && key.is_down() {
        SettingsItem::at((active.line() + 1) as u16)
    } else {
        active
    }
}

/// The setting that a key stroke moves on to its next value, if any.
pub open spec fn key_updates(screen: Screen, active: SettingsItem, key: Key) -> Option<
    SettingsItem,
> {
    if screen == Screen::Settings && key == Key::Enter {
        Some(active)
    } else {
        None
    }
}

/// Handles a key stroke: returns the next screen and what the program has
/// to do, and changes the settings where the key stroke asks for it.
pub fn on_key(screen: Screen, settings: &mut Settings, key: Key) -> (r: (Screen, Action))
    ensures
        r == key_outcome(screen, old(settings).active_item(), key),
        final(settings).active_item() == key_selects(screen, old(settings).active_item(), key),
        final(settings).game_size() == (if key_updates(screen, old(settings).active_item(), key)
            == Some(SettingsItem::GameSize) {
            next_game_size(old(settings).game_size())
        } else {
            old(settings).game_size()
        }),
        final(settings).animation_speed() == (if key_updates(
            screen,
            old(settings).active_item(),
            key,
        ) == Some(SettingsItem::AnimationSpeed) {
            next_animation_speed(old(settings).animation_speed())
        } else {
            old(settings).animation_speed()
        }),
{
    if key == Key::Char('q') {
        return (screen, Action::Quit);
    }
    let up = key == Key::Up || key == Key::Char('w');
    let down = key == Key::Down || key == Key::Char('s');
    match screen {
        Screen::Menu(item) => {
            if up {
                (Screen::Menu(MenuItem::from(item.number() - 1)), Action::Stay)
            } else if down {
                (Screen::Menu(MenuItem::from(item.number() + 1)), Action::Stay)
            } else if key == Key::Enter {
                match item {
                    MenuItem::Play => (Screen::Game, Action::Stay),
                    MenuItem::Reset => (Screen::Game, Action::NewGame),
                    MenuItem::Settings => (Screen::Settings, Action::Stay),
                    MenuItem::Exit => (screen, Action::Quit),
                }
            } else if key == Key::Esc {
                (screen, Action::Quit)
            } else {
                (screen, Action::Stay)
            }
        },
        Screen::Game => {
            if key == Key::Esc {
                (Screen::Menu(MenuItem::Play), Action::Stay)
            } else {
                (Screen::Game, Action::Turn(direction_of(key)))
            }
        },
        Screen::Settings => {
            let active = settings.active();
            if up {
                settings.select(SettingsItem::from(active.number() - 1));
                (screen, Action::Stay)
            } else if down {
                settings.select(SettingsItem::from(active.number() + 1));
                (screen, Action::Stay)
            } else if key == Key::Enter {
                settings.update_settings(active);
                match active {
                    SettingsItem::AnimationSpeed => (screen, Action::Stay),
                    SettingsItem::GameSize => (screen, Action::NewGame),
                }
            } else if key == Key::Esc {
                (Screen::Menu(MenuItem::Play), Action::Stay)
            } else {
                (screen, Action::Stay)
            }
        },
        Screen::Info(_) => {
            if key == Key::Enter {
                (Screen::Game, Action::NewGame)
            } else if key == Key::Esc {
                (Screen::Menu(MenuItem::Play), Action::Stay)
            } else {
                (screen, Action::Stay)
            }
        },
    }
}

/// What the program has to do when the timer ticks: run the grid while the
/// game is on the screen, nothing otherwise.
pub fn on_timer(screen: Screen) -> (action: Action)
    ensures
        action == (if screen == Screen::Game {
            Action::Turn(None::<Move>)
        } else {
            Action::Stay
        }),
{
    match screen {
        Screen::Game => Action::Turn(None),
        _ => Action::Stay,
    }
}

/// The screen after the grid has been run for one tick: the end of the game
/// brings up the note that it is lost, a tile of the winning value the note
/// that it is won, and otherwise the screen stays.
pub fn after_turn(screen: Screen, result: Result<(), GameOverReason>, highest: u32) -> (next:
    Screen)
    ensures
        next == (if result is Err {
            Screen::Info(InfoItem::GameLost)
        } else if highest >= WIN_VALUE {
            Screen::Info(InfoItem::GameWon)
        } else {
            screen
        }),
{
    match result {
        Err(_) => Screen::Info(InfoItem::GameLost),
        Ok(()) => {
            if highest >= WIN_VALUE {
                Screen::Info(InfoItem::GameWon)
            } else {
                screen
            }
        },
    }
}

} // verus!
