use eink_disp::f1::{
    format_constructor_name, format_driver_name, format_qualifying_position, format_race_position,
    next_race_heading, next_race_venue, qualifying_big_text, qualifying_medium_text,
    race_results_heading, race_results_text, start_light, status_finished_race, Constructor,
    Driver, QualifyingResult, RaceResult, StartLight, START_LIGHTS,
};

fn driver(given: &str, family: &str) -> Driver {
    Driver { given_name: given.to_string(), family_name: family.to_string() }
}

fn constructor(name: &str) -> Constructor {
    Constructor { name: name.to_string() }
}

fn quali(position: u32, q1: Option<&str>, q2: Option<&str>, q3: Option<&str>) -> QualifyingResult {
    QualifyingResult {
        position,
        driver: driver("Max", "Verstappen"),
        constructor: constructor("Red Bull"),
        q1: q1.map(|t| t.to_string()),
        q2: q2.map(|t| t.to_string()),
        q3: q3.map(|t| t.to_string()),
    }
}

fn race(position: u32, grid: u32, status: &str, points: &str) -> RaceResult {
    RaceResult {
        position,
        grid,
        driver: driver("Sergio", "Pérez"),
        constructor: constructor("Red Bull"),
        status: status.to_string(),
        points: points.to_string(),
    }
}

#[test]
fn driver_names_are_transliterated_to_ascii() {
    assert_eq!(format_driver_name(&driver("Sergio", "Pérez")), "Sergio Perez");
    assert_eq!(format_driver_name(&driver("Nico", "Hülkenberg")), "Nico Hulkenberg");
    assert_eq!(format_driver_name(&driver("Kimi", "Räikkönen")), "Kimi Raikkonen");
    assert_eq!(format_driver_name(&driver("Lewis", "Hamilton")), "Lewis Hamilton");
    assert_eq!(format_driver_name(&driver("", "")), " ");
}

#[test]
fn constructor_name_is_cut_at_the_first_space() {
    assert_eq!(format_constructor_name(&constructor("Red Bull")), "Red");
    assert_eq!(format_constructor_name(&constructor("Haas F1 Team")), "Haas");
    assert_eq!(format_constructor_name(&constructor("Ferrari")), "Ferrari");
    assert_eq!(format_constructor_name(&constructor("")), "");
    assert_eq!(format_constructor_name(&constructor(" Alpine")), "");
    assert_eq!(format_constructor_name(&constructor("Citroën Racing")), "Citroën");
}

#[test]
fn classified_drivers_finished_or_were_lapped() {
    assert!(status_finished_race("Finished"));
    assert!(status_finished_race("+1 Lap"));
    assert!(status_finished_race("+2 Laps"));
    assert!(status_finished_race("Lap"));
    assert!(!status_finished_race("Engine"));
    assert!(!status_finished_race("finished"));
    assert!(!status_finished_race("Finished "));
    assert!(!status_finished_race("Finishes"));
    assert!(!status_finished_race("Collapse"));
    assert!(!status_finished_race("La"));
    assert!(!status_finished_race(""));
}

#[test]
fn qualifying_line_shows_the_latest_time() {
    assert_eq!(
        format_qualifying_position(&quali(1, Some("1:30.1"), Some("1:29.2"), Some("1:28.265"))),
        " 1. Max Verstappen   1:28.265  Red Bull\n"
    );
    assert_eq!(
        format_qualifying_position(&quali(12, Some("1:30.1"), Some("1:29.2"), None)),
        "12. Max Verstappen   1:29.2    Red Bull\n"
    );
    assert_eq!(
        format_qualifying_position(&quali(18, Some("1:30.1"), None, None)),
        "18. Max Verstappen   1:30.1    Red Bull\n"
    );
    assert_eq!(
        format_qualifying_position(&quali(20, None, None, None)),
        "20. Max Verstappen   N/A       Red Bull\n"
    );
}

#[test]
fn qualifying_line_matches_std_formatting() {
    for (position, given, family, time, team) in [
        (3u32, "Carlos", "Sainz", "1:28.402", "Ferrari"),
        (7, "Guanyu", "Zhou", "1:31", "Alfa Romeo"),
        (104, "Jean-Éric Alexandre", "Vergne de la Tour", "1:31.123456", "Toro Rosso"),
    ] {
        let line = format_qualifying_position(&QualifyingResult {
            position,
            driver: driver(given, family),
            constructor: constructor(team),
            q1: None,
            q2: Some(time.to_string()),
            q3: None,
        });
        let name = format!("{} {}", unidecode::unidecode(given), unidecode::unidecode(family));
        assert_eq!(line, format!("{:2}. {:16} {:8}  {}\n", position, name, time, team));
    }
}

#[test]
fn race_line_shows_places_won_and_lost() {
    assert_eq!(
        format_race_position(&race(1, 4, "Finished", "25")),
        " 1. Sergio Perez       Red         4(+3 ) 25 \n"
    );
    assert_eq!(
        format_race_position(&race(2, 2, "Finished", "18.5")),
        " 2. Sergio Perez       Red         2(   ) 18.5\n"
    );
    assert_eq!(
        format_race_position(&race(12, 3, "+1 Lap", "0")),
        "12. Sergio Perez       Red         3(-9 ) 0  \n"
    );
}

#[test]
fn race_line_counts_a_pit_lane_start_as_twentieth() {
    assert_eq!(
        format_race_position(&race(8, 0, "Finished", "4")),
        " 8. Sergio Perez       Red        20(+12) 4  \n"
    );
    assert_eq!(
        format_race_position(&race(20, 0, "+2 Laps", "0")),
        "20. Sergio Perez       Red        20(   ) 0  \n"
    );
}

#[test]
fn race_line_shows_dnf_for_a_driver_not_classified() {
    assert_eq!(
        format_race_position(&race(19, 5, "Engine", "0")),
        "19. Sergio Perez       Red         5(-14) DNF\n"
    );
}

#[test]
fn race_line_matches_std_formatting() {
    for (position, grid, status, points, team) in [
        (1u32, 1u32, "Finished", 26.0f32, "Mercedes"),
        (5, 17, "Finished", 10.0, "Aston Martin Aramco"),
        (14, 0, "+1 Lap", 0.0, "Haas F1 Team"),
        (17, 2, "Collision", 0.0, "McLaren"),
        (3, 120, "Finished", 7.5, "Alpine F1 Team"),
    ] {
        let line = format_race_position(&RaceResult {
            position,
            grid,
            driver: driver("Esteban", "Gutiérrez"),
            constructor: constructor(team),
            status: status.to_string(),
            points: format!("{}", points),
        });
        let started = if grid == 0 { 20 } else { grid };
        let direction = if started < position {
            format!("-{}", position - started)
        } else if started == position {
            " ".to_string()
        } else {
            format!("+{}", started - position)
        };
        let shown = if status == "Finished" || status.contains("Lap") {
            format!("{:<3}", points)
        } else {
            "DNF".to_string()
        };
        let first = team.split(' ').next().unwrap();
        let expected = format!(
            "{:2}. {:18} {:10} {:2}({:3}) {}\n",
            position, "Esteban Gutierrez", first, started, direction, shown
        );
        assert_eq!(line, expected);
    }
}

#[test]
fn next_race_texts_end_in_a_blank_line() {
    let blank = " ".repeat(103);
    assert_eq!(
        next_race_heading("Monaco Grand Prix"),
        format!("Next race:\nMonaco Grand Prix\n{}", blank)
    );
    assert_eq!(
        next_race_venue("Circuit de Monaco", "Monte-Carlo"),
        format!("Circuit de Monaco\nMonte-Carlo\n{}", blank)
    );
}

#[test]
fn race_heading_pads_the_name_to_twenty() {
    assert_eq!(race_results_heading("Monaco Grand Prix"), " Monaco Grand Prix    Race Results");
    assert_eq!(
        race_results_heading("Emilia Romagna Grand Prix"),
        " Emilia Romagna Grand Prix Race Results"
    );
    assert_eq!(race_results_heading(""), format!(" {:20} Race Results", ""));
}

#[test]
fn qualifying_screen_shows_three_results_in_big_type() {
    let results: Vec<QualifyingResult> =
        (1..=5).map(|p| quali(p, Some("1:30.0"), None, None)).collect();
    let lines: Vec<String> = results.iter().map(format_qualifying_position).collect();
    assert_eq!(qualifying_big_text(&results), lines[..3].concat());
    assert_eq!(qualifying_medium_text(&results), lines[3..].concat());
    assert_eq!(qualifying_big_text(&results[..2]), lines[..2].concat());
    assert_eq!(qualifying_medium_text(&results[..2]), "");
    assert_eq!(qualifying_big_text(&results[..3]), lines[..3].concat());
    assert_eq!(qualifying_medium_text(&results[..3]), "");
    assert_eq!(qualifying_big_text(&[]), "");
    assert_eq!(qualifying_medium_text(&[]), "");
}

#[test]
fn race_screen_shows_every_result() {
    let results: Vec<RaceResult> =
        (1..=4).map(|p| race(p, 5 - p, "Finished", "10")).collect();
    let lines: Vec<String> = results.iter().map(format_race_position).collect();
    assert_eq!(race_results_text(&results), lines.concat());
    assert_eq!(race_results_text(&[]), "");
}

#[test]
fn start_lights_stand_sixty_apart() {
    assert_eq!(START_LIGHTS, 5);
    assert_eq!(
        start_light(0),
        StartLight {
            circle_x: 67,
            circle_y: 48,
            circle_diameter: 48,
            square_x: 74,
            square_y: 55,
            square_length: 34,
        }
    );
    assert_eq!(
        start_light(4),
        StartLight {
            circle_x: 307,
            circle_y: 48,
            circle_diameter: 48,
            square_x: 314,
            square_y: 55,
            square_length: 34,
        }
    );
    for i in 1..START_LIGHTS {
        assert_eq!(start_light(i).circle_x - start_light(i - 1).circle_x, 60);
        assert_eq!(start_light(i).square_x - start_light(i).circle_x, 7);
    }
}
