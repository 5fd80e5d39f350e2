use trails::map::{Position, TrailMap};

#[test]
    fn it_should_parse_text_input() {
        let input = "0123
          1234
          8765
          9876";
        let map = TrailMap::parse(&input);

        assert_eq!(
            map,
            TrailMap {
                width: 4,
                height: 4,
                paths: vec![],
                trailheads: vec![Position { x: 0, y: 0 }],
                map: vec![0, 1, 2, 3, 1, 2, 3, 4, 8, 7, 6, 5, 9, 8, 7, 6],
            }
        );
    }

#[test]
    fn it_should_find_trailheads() {
        let input = "0123
          1204
          8760
          9076";
        let map = TrailMap::parse(&input);

        assert_eq!(
            map,
            TrailMap {
                width: 4,
                height: 4,
                paths: vec![],
                trailheads: vec![
                    Position { x: 0, y: 0 },
                    Position { x: 2, y: 1 },
                    Position { x: 3, y: 2 },
                    Position { x: 1, y: 3 }
                ],
                map: vec![0, 1, 2, 3, 1, 2, 0, 4, 8, 7, 6, 0, 9, 0, 7, 6],
            }
        );

        let input = "1123
          1214
          8761
          9176";
        let map = TrailMap::parse(&input);

        assert_eq!(
            map,
            TrailMap {
                width: 4,
                height: 4,
                paths: vec![],
                trailheads: vec![],
                map: vec![1, 1, 2, 3, 1, 2, 1, 4, 8, 7, 6, 1, 9, 1, 7, 6],
            }
        );
    }

#[test]
    fn it_should_map_position_to_arr_index() {
        let input = "0123
          1234
          8765
          9876";
        let map = TrailMap::parse(&input);
        assert_eq!(map.coord(&Position { x: 0, y: 0 }), 0);
        assert_eq!(map.coord(&Position { x: 0, y: 1 }), 4);
        assert_eq!(map.coord(&Position { x: 3, y: 3 }), 15);
        assert_eq!(map.coord(&Position { x: 1, y: 2 }), 9);
    }

#[test]
    fn map_it_should_find_cardinal_neighbours() {
        let input = "0123
          1234
          8765
          9876";
        let map = TrailMap::parse(&input);

        assert_eq!(
            map.neighbours(&Position { x: 1, y: 1 }),
            vec![
                Position { x: 1, y: 0 },
                Position { x: 1, y: 2 },
                Position { x: 2, y: 1 },
                Position { x: 0, y: 1 }
            ]
        );

        assert_eq!(
            map.neighbours(&Position { x: 4, y: 4 }),
            vec![Position { x: 4, y: 3 }, Position { x: 3, y: 4 }]
        );
        assert_eq!(
            map.neighbours(&Position { x: 2, y: 0 }),
            vec![
                Position { x: 2, y: 1 },
                Position { x: 3, y: 0 },
                Position { x: 1, y: 0 }
            ]
        );
    }

#[test]
    fn map_it_should_find_all_paths() {
        let input = "890
          781
          874
          965
          456
          320
          013
          104";
        let mut map = TrailMap::parse(&input);
        map.find_all_paths();
        let expected: Vec<Vec<Position>> = vec![
            vec![
                Position { x: 0, y: 6 },
                Position { x: 1, y: 6 },
                Position { x: 1, y: 5 },
                Position { x: 0, y: 5 },
                Position { x: 0, y: 4 },
                Position { x: 1, y: 4 },
                Position { x: 1, y: 3 },
                Position { x: 1, y: 2 },
                Position { x: 1, y: 1 },
                Position { x: 1, y: 0 },
            ],
            vec![
                Position { x: 0, y: 6 },
                Position { x: 1, y: 6 },
                Position { x: 1, y: 5 },
                Position { x: 0, y: 5 },
                Position { x: 0, y: 4 },
                Position { x: 1, y: 4 },
                Position { x: 1, y: 3 },
                Position { x: 1, y: 2 },
                Position { x: 0, y: 2 },
                Position { x: 0, y: 3 },
            ],
            vec![
                Position { x: 1, y: 7 },
                Position { x: 1, y: 6 },
                Position { x: 1, y: 5 },
                Position { x: 0, y: 5 },
                Position { x: 0, y: 4 },
                Position { x: 1, y: 4 },
                Position { x: 1, y: 3 },
                Position { x: 1, y: 2 },
                Position { x: 1, y: 1 },
                Position { x: 1, y: 0 },
            ],
            vec![
                Position { x: 1, y: 7 },
                Position { x: 1, y: 6 },
                Position { x: 1, y: 5 },
                Position { x: 0, y: 5 },
                Position { x: 0, y: 4 },
                Position { x: 1, y: 4 },
                Position { x: 1, y: 3 },
                Position { x: 1, y: 2 },
                Position { x: 0, y: 2 },
                Position { x: 0, y: 3 },
            ],
        ];
        assert_eq!(map.paths, expected);
    }

#[test]
    fn test_it_should_find_cardinal_neighbours() {
        let input = "0123
          1234
          8765
          9876";
        let map = TrailMap::parse(&input);

        assert_eq!(
            map.neighbours(&Position { x: 1, y: 1 }),
            vec![
                Position { x: 1, y: 0 },
                Position { x: 1, y: 2 },
                Position { x: 2, y: 1 },
                Position { x: 0, y: 1 }
            ]
        );

        assert_eq!(
            map.neighbours(&Position { x: 4, y: 4 }),
            vec![Position { x: 4, y: 3 }, Position { x: 3, y: 4 }]
        );
        assert_eq!(
            map.neighbours(&Position { x: 2, y: 0 }),
            vec![
                Position { x: 2, y: 1 },
                Position { x: 3, y: 0 },
                Position { x: 1, y: 0 }
            ]
        );
    }

#[test]
    fn test_it_should_find_all_paths() {
        let input = "890
          781
          874
          965
          456
          320
          013
          104";
        let mut map = TrailMap::parse(&input);
        map.find_all_paths();
        let expected: Vec<Vec<Position>> = vec![
            vec![
                Position { x: 0, y: 6 },
                Position { x: 1, y: 6 },
                Position { x: 1, y: 5 },
                Position { x: 0, y: 5 },
                Position { x: 0, y: 4 },
                Position { x: 1, y: 4 },
                Position { x: 1, y: 3 },
                Position { x: 1, y: 2 },
                Position { x: 1, y: 1 },
                Position { x: 1, y: 0 },
            ],
            vec![
                Position { x: 0, y: 6 },
                Position { x: 1, y: 6 },
                Position { x: 1, y: 5 },
                Position { x: 0, y: 5 },
                Position { x: 0, y: 4 },
                Position { x: 1, y: 4 },
                Position { x: 1, y: 3 },
                Position { x: 1, y: 2 },
                Position { x: 0, y: 2 },
                Position { x: 0, y: 3 },
            ],
            vec![
                Position { x: 1, y: 7 },
                Position { x: 1, y: 6 },
                Position { x: 1, y: 5 },
                Position { x: 0, y: 5 },
                Position { x: 0, y: 4 },
                Position { x: 1, y: 4 },
                Position { x: 1, y: 3 },
                Position { x: 1, y: 2 },
                Position { x: 1, y: 1 },
                Position { x: 1, y: 0 },
            ],
            vec![
                Position { x: 1, y: 7 },
                Position { x: 1, y: 6 },
                Position { x: 1, y: 5 },
                Position { x: 0, y: 5 },
                Position { x: 0, y: 4 },
                Position { x: 1, y: 4 },
                Position { x: 1, y: 3 },
                Position { x: 1, y: 2 },
                Position { x: 0, y: 2 },
                Position { x: 0, y: 3 },
            ],
        ];
        assert_eq!(map.paths, expected);
    }
