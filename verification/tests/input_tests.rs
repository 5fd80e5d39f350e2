use rand::rngs::SmallRng;
use rand::SeedableRng;
use trails::input::Input;
use trails::map::Position;

#[test]
    fn input_it_should_format_correctly() {
        let input = Input::new(6, 6);
        assert_eq!(
            input.to_text(),
            "......
......
......
......
......
......
"
        );
    }

#[test]
    fn input_it_should_add_trails() {
        let mut input = Input::new(6, 6);
        let starting_points = vec![
            Position { x: 1, y: 0 },
            Position { x: 2, y: 4 },
            Position { x: 3, y: 0 },
            Position { x: 5, y: 5 },
        ];

        let seed = 123;
        let mut rng = SmallRng::seed_from_u64(seed);

        input.add_trails(&starting_points, &mut rng);

        assert_eq!(
            input,
            Input {
                width: 6,
                height: 6,
                map: vec![
                    '1', '0', '.', '0', '1', '.', '2', '.', '9', '.', '2', '.', '3', '4', '8', '4',
                    '3', '9', '8', '5', '7', '5', '6', '8', '7', '6', '0', '1', '6', '7', '9', '4',
                    '3', '2', '5', '.'
                ]
            }
        );
    }

#[test]
    fn input_it_should_fill_blank_spaces() {
        let mut input = Input::new(10, 10);
        let starting_points = vec![
            Position { x: 1, y: 0 },
            Position { x: 2, y: 4 },
            Position { x: 3, y: 0 },
            Position { x: 5, y: 5 },
        ];

        let seed = 123;
        let mut rng = SmallRng::seed_from_u64(seed);

        input.add_trails(&starting_points, &mut rng);
        input.fill(&mut rng);

        assert_eq!(
            input,
            Input {
                width: 10,
                height: 10,
                map: vec![
                    '1', '0', '5', '0', '7', '8', '9', '2', '4', '4', '2', '6', '0', '1', '6', '5',
                    '9', '1', '6', '2', '3', '4', '0', '2', '3', '4', '8', '4', '7', '3', '8', '5',
                    '9', '8', '5', '6', '7', '6', '1', '1', '7', '6', '0', '1', '4', '9', '8', '5',
                    '1', '8', '9', '2', '1', '2', '3', '0', '1', '4', '6', '5', '6', '7', '7', '5',
                    '9', '6', '2', '3', '7', '0', '8', '1', '4', '9', '6', '8', '1', '4', '7', '5',
                    '2', '4', '1', '1', '2', '9', '2', '1', '3', '4', '6', '4', '2', '2', '4', '5',
                    '1', '1', '4', '3'
                ]
            }
        );
    }
