use pixelsorter::command::{parse_bool, parse_command, parse_uint, run_command, Command, CommandError};
use pixelsorter::grid::Image;
use pixelsorter::pixel::{brightness, Pixel};

fn toks(line: &str) -> Vec<String> {
    line.split(' ').map(|s| s.to_string()).collect()
}

fn no_steps() -> Vec<(u32, u32)> {
    Vec::new()
}

#[test]
fn parses_numbers_and_booleans() {
    assert_eq!(parse_uint(b"0"), Some(0));
    assert_eq!(parse_uint(b"4294967295"), Some(u32::MAX));
    assert_eq!(parse_uint(b"4294967296"), None);
    assert_eq!(parse_uint(b"12a"), None);
    assert_eq!(parse_uint(b""), None);
    assert_eq!(parse_uint(b"+17"), Some(17));
    assert_eq!(parse_uint(b"+"), None);
    assert_eq!(parse_uint(b"++1"), None);
    assert_eq!(parse_bool(b"true"), Some(true));
    assert_eq!(parse_bool(b"false"), Some(false));
    assert_eq!(parse_bool(b"True"), None);
}

#[test]
fn parses_each_command() {
    assert_eq!(parse_command(&toks("open in.png")), Ok(Command::Open("in.png".to_string())));
    assert_eq!(parse_command(&toks("save out.png")), Ok(Command::Save("out.png".to_string())));
    assert_eq!(
        parse_command(&toks("classic true false true 120")),
        Ok(Command::Classic { vertical: true, reverse: false, reverse_threshold: true, threshold: 120 })
    );
    assert_eq!(
        parse_command(&toks("kernel true x y 4 3")),
        Ok(Command::Kernel { reverse: true, numx: 4, numy: 3 })
    );
    assert_eq!(
        parse_command(&toks("vector false 30 100 5 x*y")),
        Ok(Command::Vector { reverse: false, size: 30, amount: 100, spacing: 5, expression: "x*y".to_string() })
    );
    assert_eq!(parse_command(&toks("exit")), Ok(Command::Exit));
}

#[test]
fn rejects_malformed_commands() {
    let bad = CommandError::InvalidCommand;
    assert_eq!(parse_command(&Vec::new()), Err(bad));
    assert_eq!(parse_command(&toks("sort true")), Err(bad));
    assert_eq!(parse_command(&toks("classic true false true")), Err(bad));
    assert_eq!(parse_command(&toks("classic yes false true 5")), Err(bad));
    assert_eq!(parse_command(&toks("classic true false true -5")), Err(bad));
    assert_eq!(parse_command(&toks("kernel true x y 0 3")), Err(bad));
    assert_eq!(parse_command(&toks("open")), Err(bad));
    assert_eq!(parse_command(&toks("exit now")), Err(bad));
}

#[test]
fn commands_need_an_open_image() {
    let mut img: Option<Image> = None;
    let cmd = Command::Classic { vertical: false, reverse: false, reverse_threshold: false, threshold: 1 };
    assert_eq!(run_command(&mut img, &cmd, &no_steps()), Err(CommandError::NoImageLoaded));
    assert_eq!(run_command(&mut img, &Command::Save("a".to_string()), &no_steps()), Err(CommandError::NoImageLoaded));
    assert_eq!(run_command(&mut img, &Command::Exit, &no_steps()), Ok(()));
    assert!(img.is_none());
}

#[test]
fn command_runs_strategy_on_open_image() {
    let pixels: Vec<Pixel> = [10u8, 150, 180, 160, 20].iter().map(|v| Pixel::new(*v, *v, *v, *v)).collect();
    let mut img = Some(Image::new(5, 1, pixels).unwrap());
    let cmd = parse_command(&toks("classic false false false 100")).unwrap();
    assert_eq!(run_command(&mut img, &cmd, &no_steps()), Ok(()));
    let b: Vec<u32> = img.as_ref().unwrap().pixels.iter().map(|p| brightness(p)).collect();
    assert_eq!(b, vec![10, 180, 160, 150, 20]);
    let zero = Command::Kernel { reverse: false, numx: 0, numy: 1 };
    assert_eq!(run_command(&mut img, &zero, &no_steps()), Err(CommandError::InvalidCommand));
    let vector = parse_command(&toks("vector false 2 1 1 0")).unwrap();
    assert_eq!(run_command(&mut img, &vector, &no_steps()), Err(CommandError::InvalidCommand));
    assert_eq!(run_command(&mut img, &vector, &vec![(3, 0); 5]), Ok(()));
    let b: Vec<u32> = img.as_ref().unwrap().pixels.iter().map(|p| brightness(p)).collect();
    assert_eq!(b, vec![150, 180, 160, 10, 20]);
}
