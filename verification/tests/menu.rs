use slide2048::game::{GameOverReason, Move};
use slide2048::menu::{
    after_turn, direction_of, on_key, on_timer, Action, InfoItem, Key, MenuItem, Screen, Settings,
    SettingsItem, BASE_TICK_RATE, WIN_VALUE,
};

#[test]
fn settings_start_with_a_board_of_four_at_full_speed() {
    let settings = Settings::new();
    assert_eq!(settings.get_value(SettingsItem::GameSize), 4);
    assert_eq!(settings.get_value(SettingsItem::AnimationSpeed), 3);
    assert_eq!(settings.active(), SettingsItem::GameSize);
    assert_eq!(settings.tick_rate(), 40);
}

#[test]
fn game_size_runs_from_four_to_eight_and_starts_over() {
    let mut settings = Settings::new();
    let mut seen = vec![];
    for _ in 0..6 {
        settings.update_settings(SettingsItem::GameSize);
        seen.push(settings.get_value(SettingsItem::GameSize));
    }
    assert_eq!(seen, vec![5, 6, 7, 8, 4, 5]);
    assert_eq!(settings.get_value(SettingsItem::AnimationSpeed), 3);
}

#[test]
fn animation_speed_runs_from_one_to_three_and_starts_over() {
    let mut settings = Settings::new();
    let mut seen = vec![];
    let mut rates = vec![];
    for _ in 0..4 {
        settings.update_settings(SettingsItem::AnimationSpeed);
        seen.push(settings.get_value(SettingsItem::AnimationSpeed));
        rates.push(settings.tick_rate());
    }
    assert_eq!(seen, vec![1, 2, 3, 1]);
    assert_eq!(rates, vec![120, 80, 40, 120]);
    assert_eq!(BASE_TICK_RATE, 40);
    assert_eq!(settings.get_value(SettingsItem::GameSize), 4);
}

#[test]
fn items_are_numbered_from_one_and_wrap_around() {
    assert_eq!(MenuItem::Play.number(), 1);
    assert_eq!(MenuItem::Reset.number(), 2);
    assert_eq!(MenuItem::Settings.number(), 3);
    assert_eq!(MenuItem::Exit.number(), 4);
    assert_eq!(MenuItem::from(0), MenuItem::Exit);
    assert_eq!(MenuItem::from(1), MenuItem::Play);
    assert_eq!(MenuItem::from(2), MenuItem::Reset);
    assert_eq!(MenuItem::from(3), MenuItem::Settings);
    assert_eq!(MenuItem::from(4), MenuItem::Exit);
    assert_eq!(MenuItem::from(5), MenuItem::Play);
    assert_eq!(SettingsItem::GameSize.number(), 1);
    assert_eq!(SettingsItem::AnimationSpeed.number(), 2);
    assert_eq!(SettingsItem::from(0), SettingsItem::AnimationSpeed);
    assert_eq!(SettingsItem::from(1), SettingsItem::GameSize);
    assert_eq!(SettingsItem::from(2), SettingsItem::AnimationSpeed);
    assert_eq!(SettingsItem::from(3), SettingsItem::GameSize);
}

#[test]
fn items_are_shown_under_their_names() {
    assert_eq!(MenuItem::Play.name(), "Play");
    assert_eq!(MenuItem::Reset.name(), "Reset");
    assert_eq!(MenuItem::Settings.name(), "Settings");
    assert_eq!(MenuItem::Exit.name(), "Exit");
    assert_eq!(SettingsItem::GameSize.name(), "GameSize");
    assert_eq!(SettingsItem::AnimationSpeed.name(), "AnimationSpeed");
}

#[test]
fn keys_stand_for_directions() {
    assert_eq!(direction_of(Key::Up), Some(Move::Up));
    assert_eq!(direction_of(Key::Char('w')), Some(Move::Up));
    assert_eq!(direction_of(Key::Down), Some(Move::Down));
    assert_eq!(direction_of(Key::Char('s')), Some(Move::Down));
    assert_eq!(direction_of(Key::Left), Some(Move::Left));
    assert_eq!(direction_of(Key::Char('a')), Some(Move::Left));
    assert_eq!(direction_of(Key::Right), Some(Move::Right));
    assert_eq!(direction_of(Key::Char('d')), Some(Move::Right));
    assert_eq!(direction_of(Key::Char('x')), None);
    assert_eq!(direction_of(Key::Enter), None);
    assert_eq!(direction_of(Key::Other), None);
}

#[test]
fn q_quits_from_every_screen() {
    let mut settings = Settings::new();
    for screen in [
        Screen::Menu(MenuItem::Reset),
        Screen::Game,
        Screen::Settings,
        Screen::Info(InfoItem::GameWon),
    ] {
        assert_eq!(on_key(screen, &mut settings, Key::Char('q')), (screen, Action::Quit));
    }
}

#[test]
fn the_menu_moves_its_highlight_and_takes_the_line() {
    let mut s = Settings::new();
    let menu = |item| Screen::Menu(item);
    assert_eq!(on_key(menu(MenuItem::Play), &mut s, Key::Down), (menu(MenuItem::Reset), Action::Stay));
    assert_eq!(on_key(menu(MenuItem::Exit), &mut s, Key::Char('s')), (menu(MenuItem::Play), Action::Stay));
    assert_eq!(on_key(menu(MenuItem::Play), &mut s, Key::Up), (menu(MenuItem::Exit), Action::Stay));
    assert_eq!(on_key(menu(MenuItem::Settings), &mut s, Key::Char('w')), (menu(MenuItem::Reset), Action::Stay));
    assert_eq!(on_key(menu(MenuItem::Play), &mut s, Key::Enter), (Screen::Game, Action::Stay));
    assert_eq!(on_key(menu(MenuItem::Reset), &mut s, Key::Enter), (Screen::Game, Action::NewGame));
    assert_eq!(on_key(menu(MenuItem::Settings), &mut s, Key::Enter), (Screen::Settings, Action::Stay));
    assert_eq!(on_key(menu(MenuItem::Exit), &mut s, Key::Enter), (menu(MenuItem::Exit), Action::Quit));
    assert_eq!(on_key(menu(MenuItem::Reset), &mut s, Key::Esc), (menu(MenuItem::Reset), Action::Quit));
    assert_eq!(on_key(menu(MenuItem::Reset), &mut s, Key::Left), (menu(MenuItem::Reset), Action::Stay));
}

#[test]
fn the_game_screen_turns_keys_into_moves() {
    let mut s = Settings::new();
    assert_eq!(on_key(Screen::Game, &mut s, Key::Left), (Screen::Game, Action::Turn(Some(Move::Left))));
    assert_eq!(on_key(Screen::Game, &mut s, Key::Char('d')), (Screen::Game, Action::Turn(Some(Move::Right))));
    assert_eq!(on_key(Screen::Game, &mut s, Key::Enter), (Screen::Game, Action::Turn(None)));
    assert_eq!(on_key(Screen::Game, &mut s, Key::Esc), (Screen::Menu(MenuItem::Play), Action::Stay));
}

#[test]
fn the_settings_screen_changes_the_settings() {
    let mut s = Settings::new();
    assert_eq!(on_key(Screen::Settings, &mut s, Key::Enter), (Screen::Settings, Action::NewGame));
    assert_eq!(s.get_value(SettingsItem::GameSize), 5);
    assert_eq!(on_key(Screen::Settings, &mut s, Key::Down), (Screen::Settings, Action::Stay));
    assert_eq!(s.active(), SettingsItem::AnimationSpeed);
    assert_eq!(on_key(Screen::Settings, &mut s, Key::Enter), (Screen::Settings, Action::Stay));
    assert_eq!(s.get_value(SettingsItem::AnimationSpeed), 1);
    assert_eq!(s.get_value(SettingsItem::GameSize), 5);
    assert_eq!(on_key(Screen::Settings, &mut s, Key::Char('s')), (Screen::Settings, Action::Stay));
    assert_eq!(s.active(), SettingsItem::GameSize);
    assert_eq!(on_key(Screen::Settings, &mut s, Key::Up), (Screen::Settings, Action::Stay));
    assert_eq!(s.active(), SettingsItem::AnimationSpeed);
    assert_eq!(on_key(Screen::Settings, &mut s, Key::Char('w')), (Screen::Settings, Action::Stay));
    assert_eq!(s.active(), SettingsItem::GameSize);
    assert_eq!(on_key(Screen::Settings, &mut s, Key::Esc), (Screen::Menu(MenuItem::Play), Action::Stay));
    assert_eq!(on_key(Screen::Settings, &mut s, Key::Other), (Screen::Settings, Action::Stay));
}

#[test]
fn the_info_screen_starts_over_or_goes_back() {
    let mut s = Settings::new();
    let info = Screen::Info(InfoItem::GameLost);
    assert_eq!(on_key(info, &mut s, Key::Enter), (Screen::Game, Action::NewGame));
    assert_eq!(on_key(info, &mut s, Key::Esc), (Screen::Menu(MenuItem::Play), Action::Stay));
    assert_eq!(on_key(info, &mut s, Key::Up), (info, Action::Stay));
}

#[test]
fn the_timer_runs_the_grid_on_the_game_screen_only() {
    assert_eq!(on_timer(Screen::Game), Action::Turn(None));
    assert_eq!(on_timer(Screen::Settings), Action::Stay);
    assert_eq!(on_timer(Screen::Menu(MenuItem::Play)), Action::Stay);
    assert_eq!(on_timer(Screen::Info(InfoItem::GameWon)), Action::Stay);
}

#[test]
fn the_end_of_the_game_brings_up_a_note() {
    assert_eq!(after_turn(Screen::Game, Ok(()), 1024), Screen::Game);
    assert_eq!(after_turn(Screen::Game, Ok(()), WIN_VALUE), Screen::Info(InfoItem::GameWon));
    assert_eq!(WIN_VALUE, 2048);
    assert_eq!(
        after_turn(Screen::Game, Err(GameOverReason::NoMovesLeft), 64),
        Screen::Info(InfoItem::GameLost)
    );
    assert_eq!(
        after_turn(Screen::Game, Err(GameOverReason::BoardFull), 4096),
        Screen::Info(InfoItem::GameLost)
    );
}
