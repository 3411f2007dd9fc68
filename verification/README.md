# nox

Verified core of a voxel colony game: region tile indexing, ramp building on
region terrain, greedy meshing of voxel models, light slot assignment and light
bits, heightmap squares, the pause keys and the decisions of the window's main
loop. `src/` is checked by Verus; `app/` is the program around it (window and
event loop, ECS schedule, serialisable components, floating-point geometry and
GPU uniform layouts).
