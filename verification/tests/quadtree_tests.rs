use rand::rngs::SmallRng;
use rand::SeedableRng;
use trails::map::Position;
use trails::quadtree::Leaf;

#[test]
    fn it_should_create_new_tree() {
        let root = Leaf::new(0, 0, 6, 6, 3, 0);
        assert_eq!(
            root,
            Leaf {
                depth: 0,
                min_size: 3,
                x: 0,
                y: 0,
                width: 6,
                height: 6,
                children: vec![]
            }
        );
    }

#[test]
    fn it_should_make_children() {
        let mut root = Leaf::new(0, 0, 16, 16, 2, 0);
        // test seed
        let seed = 123;
        let mut rng = SmallRng::seed_from_u64(seed);
        root.generate(&mut rng);
        assert_eq!(
            root,
            Leaf {
                depth: 0,
                min_size: 2,
                x: 0,
                y: 0,
                width: 16,
                height: 16,
                children: vec![
                    Leaf {
                        depth: 1,
                        min_size: 2,
                        x: 0,
                        y: 0,
                        width: 8,
                        height: 8,
                        children: vec![
                            Leaf {
                                depth: 2,
                                min_size: 2,
                                x: 0,
                                y: 0,
                                width: 4,
                                height: 4,
                                children: vec![
                                    Leaf {
                                        depth: 3,
                                        min_size: 2,
                                        x: 0,
                                        y: 0,
                                        width: 2,
                                        height: 2,
                                        children: vec![]
                                    },
                                    Leaf {
                                        depth: 3,
                                        min_size: 2,
                                        x: 2,
                                        y: 0,
                                        width: 2,
                                        height: 2,
                                        children: vec![]
                                    },
                                    Leaf {
                                        depth: 3,
                                        min_size: 2,
                                        x: 2,
                                        y: 2,
                                        width: 2,
                                        height: 2,
                                        children: vec![]
                                    },
                                    Leaf {
                                        depth: 3,
                                        min_size: 2,
                                        x: 0,
                                        y: 2,
                                        width: 2,
                                        height: 2,
                                        children: vec![]
                                    }
                                ]
                            },
                            Leaf {
                                depth: 2,
                                min_size: 2,
                                x: 4,
                                y: 0,
                                width: 4,
                                height: 4,
                                children: vec![
                                    Leaf {
                                        depth: 3,
                                        min_size: 2,
                                        x: 4,
                                        y: 0,
                                        width: 2,
                                        height: 2,
                                        children: vec![]
                                    },
                                    Leaf {
                                        depth: 3,
                                        min_size: 2,
                                        x: 6,
                                        y: 0,
                                        width: 2,
                                        height: 2,
                                        children: vec![]
                                    },
                                    Leaf {
                                        depth: 3,
                                        min_size: 2,
                                        x: 6,
                                        y: 2,
                                        width: 2,
                                        height: 2,
                                        children: vec![]
                                    },
                                    Leaf {
                                        depth: 3,
                                        min_size: 2,
                                        x: 4,
                                        y: 2,
                                        width: 2,
                                        height: 2,
                                        children: vec![]
                                    }
                                ]
                            },
                            Leaf {
                                depth: 2,
                                min_size: 2,
                                x: 4,
                                y: 4,
                                width: 4,
                                height: 4,
                                children: vec![
                                    Leaf {
                                        depth: 3,
                                        min_size: 2,
                                        x: 4,
                                        y: 4,
                                        width: 2,
                                        height: 2,
                                        children: vec![]
                                    },
                                    Leaf {
                                        depth: 3,
                                        min_size: 2,
                                        x: 6,
                                        y: 4,
                                        width: 2,
                                        height: 2,
                                        children: vec![]
                                    },
                                    Leaf {
                                        depth: 3,
                                        min_size: 2,
                                        x: 6,
                                        y: 6,
                                        width: 2,
                                        height: 2,
                                        children: vec![]
                                    },
                                    Leaf {
                                        depth: 3,
                                        min_size: 2,
                                        x: 4,
                                        y: 6,
                                        width: 2,
                                        height: 2,
                                        children: vec![]
                                    }
                                ]
                            },
                            Leaf {
                                depth: 2,
                                min_size: 2,
                                x: 0,
                                y: 4,
                                width: 4,
                                height: 4,
                                children: vec![
                                    Leaf {
                                        depth: 3,
                                        min_size: 2,
                                        x: 0,
                                        y: 4,
                                        width: 2,
                                        height: 2,
                                        children: vec![]
                                    },
                                    Leaf {
                                        depth: 3,
                                        min_size: 2,
                                        x: 2,
                                        y: 4,
                                        width: 2,
                                        height: 2,
                                        children: vec![]
                                    },
                                    Leaf {
                                        depth: 3,
                                        min_size: 2,
                                        x: 2,
                                        y: 6,
                                        width: 2,
                                        height: 2,
                                        children: vec![]
                                    },
                                    Leaf {
                                        depth: 3,
                                        min_size: 2,
                                        x: 0,
                                        y: 6,
                                        width: 2,
                                        height: 2,
                                        children: vec![]
                                    }
                                ]
                            }
                        ]
                    },
                    Leaf {
                        depth: 1,
                        min_size: 2,
                        x: 8,
                        y: 0,
                        width: 8,
                        height: 8,
                        children: vec![
                            Leaf {
                                depth: 2,
                                min_size: 2,
                                x: 8,
                                y: 0,
                                width: 4,
                                height: 4,
                                children: vec![
                                    Leaf {
                                        depth: 3,
                                        min_size: 2,
                                        x: 8,
                                        y: 0,
                                        width: 2,
                                        height: 2,
                                        children: vec![]
                                    },
                                    Leaf {
                                        depth: 3,
                                        min_size: 2,
                                        x: 10,
                                        y: 0,
                                        width: 2,
                                        height: 2,
                                        children: vec![]
                                    },
                                    Leaf {
                                        depth: 3,
                                        min_size: 2,
                                        x: 10,
                                        y: 2,
                                        width: 2,
                                        height: 2,
                                        children: vec![]
                                    },
                                    Leaf {
                                        depth: 3,
                                        min_size: 2,
                                        x: 8,
                                        y: 2,
                                        width: 2,
                                        height: 2,
                                        children: vec![]
                                    }
                                ]
                            },
                            Leaf {
                                depth: 2,
                                min_size: 2,
                                x: 12,
                                y: 0,
                                width: 4,
                                height: 4,
                                children: vec![
                                    Leaf {
                                        depth: 3,
                                        min_size: 2,
                                        x: 12,
                                        y: 0,
                                        width: 2,
                                        height: 2,
                                        children: vec![]
                                    },
                                    Leaf {
                                        depth: 3,
                                        min_size: 2,
                                        x: 14,
                                        y: 0,
                                        width: 2,
                                        height: 2,
                                        children: vec![]
                                    },
                                    Leaf {
                                        depth: 3,
                                        min_size: 2,
                                        x: 14,
                                        y: 2,
                                        width: 2,
                                        height: 2,
                                        children: vec![]
                                    },
                                    Leaf {
                                        depth: 3,
                                        min_size: 2,
                                        x: 12,
                                        y: 2,
                                        width: 2,
                                        height: 2,
                                        children: vec![]
                                    }
                                ]
                            },
                            Leaf {
                                depth: 2,
                                min_size: 2,
                                x: 12,
                                y: 4,
                                width: 4,
                                height: 4,
                                children: vec![
                                    Leaf {
                                        depth: 3,
                                        min_size: 2,
                                        x: 12,
                                        y: 4,
                                        width: 2,
                                        height: 2,
                                        children: vec![]
                                    },
                                    Leaf {
                                        depth: 3,
                                        min_size: 2,
                                        x: 14,
                                        y: 4,
                                        width: 2,
                                        height: 2,
                                        children: vec![]
                                    },
                                    Leaf {
                                        depth: 3,
                                        min_size: 2,
                                        x: 14,
                                        y: 6,
                                        width: 2,
                                        height: 2,
                                        children: vec![]
                                    },
                                    Leaf {
                                        depth: 3,
                                        min_size: 2,
                                        x: 12,
                                        y: 6,
                                        width: 2,
                                        height: 2,
                                        children: vec![]
                                    }
                                ]
                            },
                            Leaf {
                                depth: 2,
                                min_size: 2,
                                x: 8,
                                y: 4,
                                width: 4,
                                height: 4,
                                children: vec![
                                    Leaf {
                                        depth: 3,
                                        min_size: 2,
                                        x: 8,
                                        y: 4,
                                        width: 2,
                                        height: 2,
                                        children: vec![]
                                    },
                                    Leaf {
                                        depth: 3,
                                        min_size: 2,
                                        x: 10,
                                        y: 4,
                                        width: 2,
                                        height: 2,
                                        children: vec![]
                                    },
                                    Leaf {
                                        depth: 3,
                                        min_size: 2,
                                        x: 10,
                                        y: 6,
                                        width: 2,
                                        height: 2,
                                        children: vec![]
                                    },
                                    Leaf {
                                        depth: 3,
                                        min_size: 2,
                                        x: 8,
                                        y: 6,
                                        width: 2,
                                        height: 2,
                                        children: vec![]
                                    }
                                ]
                            }
                        ]
                    },
                    Leaf {
                        depth: 1,
                        min_size: 2,
                        x: 8,
                        y: 8,
                        width: 8,
                        height: 8,
                        children: vec![
                            Leaf {
                                depth: 2,
                                min_size: 2,
                                x: 8,
                                y: 8,
                                width: 4,
                                height: 4,
                                children: vec![
                                    Leaf {
                                        depth: 3,
                                        min_size: 2,
                                        x: 8,
                                        y: 8,
                                        width: 2,
                                        height: 2,
                                        children: vec![]
                                    },
                                    Leaf {
                                        depth: 3,
                                        min_size: 2,
                                        x: 10,
                                        y: 8,
                                        width: 2,
                                        height: 2,
                                        children: vec![]
                                    },
                                    Leaf {
                                        depth: 3,
                                        min_size: 2,
                                        x: 10,
                                        y: 10,
                                        width: 2,
                                        height: 2,
                                        children: vec![]
                                    },
                                    Leaf {
                                        depth: 3,
                                        min_size: 2,
                                        x: 8,
                                        y: 10,
                                        width: 2,
                                        height: 2,
                                        children: vec![]
                                    }
                                ]
                            },
                            Leaf {
                                depth: 2,
                                min_size: 2,
                                x: 12,
                                y: 8,
                                width: 4,
                                height: 4,
                                children: vec![
                                    Leaf {
                                        depth: 3,
                                        min_size: 2,
                                        x: 12,
                                        y: 8,
                                        width: 2,
                                        height: 2,
                                        children: vec![]
                                    },
                                    Leaf {
                                        depth: 3,
                                        min_size: 2,
                                        x: 14,
                                        y: 8,
                                        width: 2,
                                        height: 2,
                                        children: vec![]
                                    },
                                    Leaf {
                                        depth: 3,
                                        min_size: 2,
                                        x: 14,
                                        y: 10,
                                        width: 2,
                                        height: 2,
                                        children: vec![]
                                    },
                                    Leaf {
                                        depth: 3,
                                        min_size: 2,
                                        x: 12,
                                        y: 10,
                                        width: 2,
                                        height: 2,
                                        children: vec![]
                                    }
                                ]
                            },
                            Leaf {
                                depth: 2,
                                min_size: 2,
                                x: 12,
                                y: 12,
                                width: 4,
                                height: 4,
                                children: vec![
                                    Leaf {
                                        depth: 3,
                                        min_size: 2,
                                        x: 12,
                                        y: 12,
                                        width: 2,
                                        height: 2,
                                        children: vec![]
                                    },
                                    Leaf {
                                        depth: 3,
                                        min_size: 2,
                                        x: 14,
                                        y: 12,
                                        width: 2,
                                        height: 2,
                                        children: vec![]
                                    },
                                    Leaf {
                                        depth: 3,
                                        min_size: 2,
                                        x: 14,
                                        y: 14,
                                        width: 2,
                                        height: 2,
                                        children: vec![]
                                    },
                                    Leaf {
                                        depth: 3,
                                        min_size: 2,
                                        x: 12,
                                        y: 14,
                                        width: 2,
                                        height: 2,
                                        children: vec![]
                                    }
                                ]
                            },
                            Leaf {
                                depth: 2,
                                min_size: 2,
                                x: 8,
                                y: 12,
                                width: 4,
                                height: 4,
                                children: vec![
                                    Leaf {
                                        depth: 3,
                                        min_size: 2,
                                        x: 8,
                                        y: 12,
                                        width: 2,
                                        height: 2,
                                        children: vec![]
                                    },
                                    Leaf {
                                        depth: 3,
                                        min_size: 2,
                                        x: 10,
                                        y: 12,
                                        width: 2,
                                        height: 2,
                                        children: vec![]
                                    },
                                    Leaf {
                                        depth: 3,
                                        min_size: 2,
                                        x: 10,
                                        y: 14,
                                        width: 2,
                                        height: 2,
                                        children: vec![]
                                    },
                                    Leaf {
                                        depth: 3,
                                        min_size: 2,
                                        x: 8,
                                        y: 14,
                                        width: 2,
                                        height: 2,
                                        children: vec![]
                                    }
                                ]
                            }
                        ]
                    },
                    Leaf {
                        depth: 1,
                        min_size: 2,
                        x: 0,
                        y: 8,
                        width: 8,
                        height: 8,
                        children: vec![
                            Leaf {
                                depth: 2,
                                min_size: 2,
                                x: 0,
                                y: 8,
                                width: 4,
                                height: 4,
                                children: vec![
                                    Leaf {
                                        depth: 3,
                                        min_size: 2,
                                        x: 0,
                                        y: 8,
                                        width: 2,
                                        height: 2,
                                        children: vec![]
                                    },
                                    Leaf {
                                        depth: 3,
                                        min_size: 2,
                                        x: 2,
                                        y: 8,
                                        width: 2,
                                        height: 2,
                                        children: vec![]
                                    },
                                    Leaf {
                                        depth: 3,
                                        min_size: 2,
                                        x: 2,
                                        y: 10,
                                        width: 2,
                                        height: 2,
                                        children: vec![]
                                    },
                                    Leaf {
                                        depth: 3,
                                        min_size: 2,
                                        x: 0,
                                        y: 10,
                                        width: 2,
                                        height: 2,
                                        children: vec![]
                                    }
                                ]
                            },
                            Leaf {
                                depth: 2,
                                min_size: 2,
                                x: 4,
                                y: 8,
                                width: 4,
                                height: 4,
                                children: vec![
                                    Leaf {
                                        depth: 3,
                                        min_size: 2,
                                        x: 4,
                                        y: 8,
                                        width: 2,
                                        height: 2,
                                        children: vec![]
                                    },
                                    Leaf {
                                        depth: 3,
                                        min_size: 2,
                                        x: 6,
                                        y: 8,
                                        width: 2,
                                        height: 2,
                                        children: vec![]
                                    },
                                    Leaf {
                                        depth: 3,
                                        min_size: 2,
                                        x: 6,
                                        y: 10,
                                        width: 2,
                                        height: 2,
                                        children: vec![]
                                    },
                                    Leaf {
                                        depth: 3,
                                        min_size: 2,
                                        x: 4,
                                        y: 10,
                                        width: 2,
                                        height: 2,
                                        children: vec![]
                                    }
                                ]
                            },
                            Leaf {
                                depth: 2,
                                min_size: 2,
                                x: 4,
                                y: 12,
                                width: 4,
                                height: 4,
                                children: vec![
                                    Leaf {
                                        depth: 3,
                                        min_size: 2,
                                        x: 4,
                                        y: 12,
                                        width: 2,
                                        height: 2,
                                        children: vec![]
                                    },
                                    Leaf {
                                        depth: 3,
                                        min_size: 2,
                                        x: 6,
                                        y: 12,
                                        width: 2,
                                        height: 2,
                                        children: vec![]
                                    },
                                    Leaf {
                                        depth: 3,
                                        min_size: 2,
                                        x: 6,
                                        y: 14,
                                        width: 2,
                                        height: 2,
                                        children: vec![]
                                    },
                                    Leaf {
                                        depth: 3,
                                        min_size: 2,
                                        x: 4,
                                        y: 14,
                                        width: 2,
                                        height: 2,
                                        children: vec![]
                                    }
                                ]
                            },
                            Leaf {
                                depth: 2,
                                min_size: 2,
                                x: 0,
                                y: 12,
                                width: 4,
                                height: 4,
                                children: vec![
                                    Leaf {
                                        depth: 3,
                                        min_size: 2,
                                        x: 0,
                                        y: 12,
                                        width: 2,
                                        height: 2,
                                        children: vec![]
                                    },
                                    Leaf {
                                        depth: 3,
                                        min_size: 2,
                                        x: 2,
                                        y: 12,
                                        width: 2,
                                        height: 2,
                                        children: vec![]
                                    },
                                    Leaf {
                                        depth: 3,
                                        min_size: 2,
                                        x: 2,
                                        y: 14,
                                        width: 2,
                                        height: 2,
                                        children: vec![]
                                    },
                                    Leaf {
                                        depth: 3,
                                        min_size: 2,
                                        x: 0,
                                        y: 14,
                                        width: 2,
                                        height: 2,
                                        children: vec![]
                                    }
                                ]
                            }
                        ]
                    }
                ]
            }
        );
    }

#[test]
    fn it_should_add_start_nodes() {
        let root = Leaf {
            depth: 0,
            min_size: 3,
            x: 0,
            y: 0,
            width: 6,
            height: 6,
            children: vec![
                Leaf {
                    depth: 1,
                    min_size: 3,
                    x: 0,
                    y: 0,
                    width: 3,
                    height: 3,
                    children: vec![],
                },
                Leaf {
                    depth: 1,
                    min_size: 3,
                    x: 0,
                    y: 0,
                    width: 3,
                    height: 3,
                    children: vec![],
                },
            ],
        };

        let seed = 123;
        let mut rng = SmallRng::seed_from_u64(seed);
        let mut starting_points = Vec::new();
        root.add_start(&mut starting_points, &mut rng, 2);

        assert_eq!(
            starting_points,
            vec![
                Position { x: 1, y: 2 },
                Position { x: 1, y: 1 },
                Position { x: 0, y: 1 },
                Position { x: 2, y: 2 }
            ]
        );
    }

#[test]
fn it_should_draw_leaf_rectangles() {
    let root = Leaf {
        depth: 0,
        min_size: 3,
        x: 0,
        y: 0,
        width: 2,
        height: 2,
        children: vec![
            Leaf { depth: 1, min_size: 3, x: 0, y: 0, width: 1, height: 1, children: vec![] },
            Leaf { depth: 1, min_size: 3, x: 1, y: 1, width: 1, height: 1, children: vec![] },
        ],
    };
    assert_eq!(
        root.draw(),
        "<svg viewBox=\"0 0 128 128\" xmlns=\"http://www.w3.org/2000/svg\">\n          \
         <rect x=\"0\" y=\"0\" width=\"64\" height=\"64\" stroke-width=\"2\" \
         fill=\"transparent\" stroke=\"black\" />\n          \
         <rect x=\"64\" y=\"64\" width=\"64\" height=\"64\" stroke-width=\"2\" \
         fill=\"transparent\" stroke=\"black\" /></svg>"
    );
    let bare = Leaf::new(0, 0, 2, 2, 3, 0);
    assert_eq!(
        bare.draw(),
        "<svg viewBox=\"0 0 128 128\" xmlns=\"http://www.w3.org/2000/svg\"></svg>"
    );
}
