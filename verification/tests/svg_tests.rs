use trails::map::{Position, TrailMap};
use trails::svg::{LineCommand, Svg, SvgCommand};

#[test]
    fn it_should_create_struct() {
        assert_eq!(
            Svg::new(16, 10, 16, 16, 2, "black", 3),
            Svg {
                tile_size: 16,
                offset: 10,
                stroke_width: 2,
                colour: "black",
                width: 260,
                height: 260,
                end_radius: 3
            }
        )
    }

#[test]
    fn it_should_draw_map() {
        let input = "0010195998
9523236072
8774548688
7465623458
8806717067
9517809170
8726583389
7433376641
6596526545
6010449363";
        let mut map = TrailMap::parse(input);
        map.find_all_paths();

        let svg = Svg::new(64, 32, 10, 10, 2, "black", 10);
        let output = svg.draw(&map);

        assert_eq!(
            output,
            "<svg viewBox=\"0 0 640 640\" xmlns=\"http://www.w3.org/2000/svg\"><circle cx=\"160\" cy=\"288\" stroke-width=\"2\" fill=\"transparent\" stroke=\"black\" r=\"10\" /><rect x=\"22\" y=\"342\" width=\"20\" height=\"20\" stroke-width=\"2\" fill=\"transparent\" stroke=\"black\" /><path d=\"M160,298v182h-64v64h-64v-182\" fill=\"none\" stroke=\"black\" stroke-width=\"2\" stroke-linecap=\"square\" /><circle cx=\"352\" cy=\"352\" stroke-width=\"2\" fill=\"transparent\" stroke=\"black\" r=\"10\" /><rect x=\"598\" y=\"406\" width=\"20\" height=\"20\" stroke-width=\"2\" fill=\"transparent\" stroke=\"black\" /><path d=\"M352,342v-118h192v192h54\" fill=\"none\" stroke=\"black\" stroke-width=\"2\" stroke-linecap=\"square\" /></svg>"
        );
    }

#[test]
    fn it_should_create_path_commands() {
        let trail = vec![
            Position { x: 4, y: 4 },
            Position { x: 4, y: 5 },
            Position { x: 5, y: 5 },
            Position { x: 6, y: 5 },
            Position { x: 7, y: 5 },
            Position { x: 8, y: 5 },
            Position { x: 8, y: 4 },
            Position { x: 8, y: 3 },
            Position { x: 7, y: 3 },
            Position { x: 6, y: 3 },
        ];

        let svg = Svg::new(64, 32, 10, 10, 2, "black", 10);
        let expected = vec![
            SvgCommand {
                command: LineCommand::Vertical,
                distance: 64,
            },
            SvgCommand {
                command: LineCommand::Horizontal,
                distance: 64,
            },
            SvgCommand {
                command: LineCommand::Horizontal,
                distance: 64,
            },
            SvgCommand {
                command: LineCommand::Horizontal,
                distance: 64,
            },
            SvgCommand {
                command: LineCommand::Horizontal,
                distance: 64,
            },
            SvgCommand {
                command: LineCommand::Vertical,
                distance: -64,
            },
            SvgCommand {
                command: LineCommand::Vertical,
                distance: -64,
            },
            SvgCommand {
                command: LineCommand::Horizontal,
                distance: -64,
            },
            SvgCommand {
                command: LineCommand::Horizontal,
                distance: -64,
            },
        ];
        assert_eq!(svg.get_path(&trail), expected);
    }

#[test]
    fn it_merges_duplicate_commands() {
        let path = vec![
            SvgCommand {
                command: LineCommand::Horizontal,
                distance: 54,
            },
            SvgCommand {
                command: LineCommand::Vertical,
                distance: 64,
            },
            SvgCommand {
                command: LineCommand::Horizontal,
                distance: -64,
            },
            SvgCommand {
                command: LineCommand::Vertical,
                distance: 64,
            },
            SvgCommand {
                command: LineCommand::Vertical,
                distance: 64,
            },
            SvgCommand {
                command: LineCommand::Horizontal,
                distance: -64,
            },
            SvgCommand {
                command: LineCommand::Horizontal,
                distance: -64,
            },
            SvgCommand {
                command: LineCommand::Vertical,
                distance: 64,
            },
            SvgCommand {
                command: LineCommand::Vertical,
                distance: 54,
            },
        ];
        let expected = vec![
            SvgCommand {
                command: LineCommand::Horizontal,
                distance: 54,
            },
            SvgCommand {
                command: LineCommand::Vertical,
                distance: 64,
            },
            SvgCommand {
                command: LineCommand::Horizontal,
                distance: -64,
            },
            SvgCommand {
                command: LineCommand::Vertical,
                distance: 128,
            },
            SvgCommand {
                command: LineCommand::Horizontal,
                distance: -128,
            },
            SvgCommand {
                command: LineCommand::Vertical,
                distance: 118,
            },
        ];

        let svg = Svg::new(64, 32, 10, 10, 2, "black", 10);
        assert_eq!(svg.merge_commands(path), expected);
    }
