# acceleration along x
0
12
24
35
45
53
60
64
66
64
60
53
45
35
24
12
